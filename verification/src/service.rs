//! The service: its units and the commands that control it.
use crate::text::texts;
use vstd::prelude::*;
use vstd::string::*;

verus! {

/// The name of the service.
pub open spec fn service_name() -> Seq<char> {
    "netmeter.service"@
}

/// What can be done with the service by way of its manager.
#[derive(Clone, Copy, PartialEq, Eq, Structural, Debug)]
pub enum Control {
    Start,
    Stop,
    Restart,
    Uninstall,
    Reload,
    Enable,
}

/// The words of a command to the manager of services.
pub open spec fn control_words(c: Control) -> Seq<Seq<char>> {
    match c {
        Control::Start => seq!["start"@, service_name()],
        Control::Stop => seq!["stop"@, service_name()],
        Control::Restart => seq!["restart"@, service_name()],
        Control::Uninstall => seq!["disable"@, "--now"@, service_name()],
        Control::Reload => seq!["daemon-reload"@],
        Control::Enable => seq!["enable"@, "--now"@, service_name()],
    }
}

/// The words of a command to the manager of services.
pub fn systemctl_args(c: Control) -> (v: Vec<String>)
    ensures
        texts(v@) == control_words(c),
{
    let mut v: Vec<String> = Vec::new();
    match c {
        Control::Start => {
            v.push("start".to_owned());
        },
        Control::Stop => {
            v.push("stop".to_owned());
        },
        Control::Restart => {
            v.push("restart".to_owned());
        },
        Control::Uninstall => {
            v.push("disable".to_owned());
            v.push("--now".to_owned());
        },
        Control::Reload => {
            v.push("daemon-reload".to_owned());
        },
        Control::Enable => {
            v.push("enable".to_owned());
            v.push("--now".to_owned());
        },
    }
    if c != Control::Reload {
        v.push("netmeter.service".to_owned());
    }
    assert(texts(v@) =~= control_words(c));
    v
}

/// The unit of the daemon: an own user with the capabilities to read counters, to
/// capture frames, and to see which process has which socket.
pub open spec fn unit_text() -> Seq<char> {
    "[Unit]\nDescription=NetMeter bandwidth meter\nAfter=network.target time-sync.target\nWants=time-sync.target\n\n[Service]\nType=simple\nUser=netmeter\nGroup=netmeter\nAmbientCapabilities=CAP_NET_ADMIN CAP_NET_RAW CAP_DAC_READ_SEARCH CAP_SYS_PTRACE\nCapabilityBoundingSet=CAP_NET_ADMIN CAP_NET_RAW CAP_DAC_READ_SEARCH CAP_SYS_PTRACE\nNoNewPrivileges=true\nPrivateTmp=true\nProtectSystem=strict\nProtectHome=true\nProtectKernelModules=true\nReadWritePaths=/var/lib/netmeter\nExecStart=/usr/bin/netmeter daemon run\nRestart=on-failure\n\n[Install]\nWantedBy=multi-user.target\n"@
}

/// The unit of the daemon.
pub fn system_unit() -> (r: String)
    ensures
        r@ == unit_text(),
{
    "[Unit]\nDescription=NetMeter bandwidth meter\nAfter=network.target time-sync.target\nWants=time-sync.target\n\n[Service]\nType=simple\nUser=netmeter\nGroup=netmeter\nAmbientCapabilities=CAP_NET_ADMIN CAP_NET_RAW CAP_DAC_READ_SEARCH CAP_SYS_PTRACE\nCapabilityBoundingSet=CAP_NET_ADMIN CAP_NET_RAW CAP_DAC_READ_SEARCH CAP_SYS_PTRACE\nNoNewPrivileges=true\nPrivateTmp=true\nProtectSystem=strict\nProtectHome=true\nProtectKernelModules=true\nReadWritePaths=/var/lib/netmeter\nExecStart=/usr/bin/netmeter daemon run\nRestart=on-failure\n\n[Install]\nWantedBy=multi-user.target\n".to_owned()
}

/// The unit of a user's notifier.
pub open spec fn agent_text() -> Seq<char> {
    "[Unit]\nDescription=NetMeter budget notifier (user session)\nAfter=graphical-session.target\n\n[Service]\nType=simple\nExecStart=/usr/bin/netmeter user-agent\nRestart=on-failure\n\n[Install]\nWantedBy=default.target\n"@
}

/// The unit of a user's notifier.
pub fn agent_unit() -> (r: String)
    ensures
        r@ == agent_text(),
{
    "[Unit]\nDescription=NetMeter budget notifier (user session)\nAfter=graphical-session.target\n\n[Service]\nType=simple\nExecStart=/usr/bin/netmeter user-agent\nRestart=on-failure\n\n[Install]\nWantedBy=default.target\n".to_owned()
}

/// Where the home of a user lies.
pub fn users_home(user: &str) -> (r: String)
    ensures
        r@ == "/home/"@ + user@,
{
    let mut r = String::new();
    r.append("/home/");
    r.append(user);
    assert(r@ =~= "/home/"@ + user@);
    r
}

/// The words that make the daemon's user.
pub open spec fn user_words() -> Seq<Seq<char>> {
    seq!["-r"@, "-s"@, "/usr/sbin/nologin"@, "-d"@, "/var/lib/netmeter"@, "netmeter"@]
}

/// The words that make the daemon's user.
pub fn useradd_args() -> (v: Vec<String>)
    ensures
        texts(v@) == user_words(),
{
    let mut v: Vec<String> = Vec::new();
    v.push("-r".to_owned());
    v.push("-s".to_owned());
    v.push("/usr/sbin/nologin".to_owned());
    v.push("-d".to_owned());
    v.push("/var/lib/netmeter".to_owned());
    v.push("netmeter".to_owned());
    assert(texts(v@) =~= user_words());
    v
}

} // verus!
