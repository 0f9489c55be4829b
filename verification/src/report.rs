//! The status of the meter, and the export of samples.
use crate::db::{rest, Row};
use crate::show::is_small;
use crate::text::{
    decimal, integers_are_read_back, joined, joined_parts_come_apart, joined_with_one_more, pieces,
    pieces_of_two, push_decimal, push_signed, signed_decimal, signed_value, texts,
};
use vstd::prelude::*;
use vstd::string::*;

verus! {

// ---- status ----

/// Whether local traffic is told apart: the table is there for this user, or bytes were
/// recorded as local before.
pub fn split_works(table_seen: bool, lan_seen: i64) -> (r: bool)
    ensures
        r == (table_seen || lan_seen > 0),
{
    table_seen || lan_seen > 0
}

/// How the state of the split is called.
pub fn split_word(works: bool) -> (r: &'static str)
    ensures
        r@ == if works {
            "available"@
        } else {
            "unavailable (TOTAL-only)"@
        },
{
    if works {
        "available"
    } else {
        "unavailable (TOTAL-only)"
    }
}

/// What the status is made of.
pub struct Status {
    pub version: String,
    pub daemon_active: bool,
    pub split: bool,
    pub db_path: String,
    pub db_bytes: u64,
    pub wal_bytes: u64,
    pub discarded: String,
}

/// The lines of the status.
pub open spec fn status_text(s: Status) -> Seq<Seq<char>> {
    seq![
        "netmeter "@ + s.version@,
        "daemon:  "@ + if s.daemon_active {
            "active"@
        } else {
            "inactive (run `netmeter daemon install`)"@
        },
        "nft:     "@ + if s.split {
            "split available (LAN/WAN/TOTAL)"@
        } else {
            "unavailable → TOTAL-only"@
        },
        "db:      "@ + s.db_path@ + " ("@ + decimal(s.db_bytes as nat) + " bytes, wal "@ + decimal(
            s.wal_bytes as nat,
        ) + " bytes)"@,
        "discarded spike samples: "@ + s.discarded@,
    ]
}

/// The lines of the status.
pub fn status_lines(s: &Status) -> (v: Vec<String>)
    ensures
        texts(v@) == status_text(*s),
{
    let mut first = String::new();
    first.append("netmeter ");
    first.append(s.version.as_str());
    let mut daemon = String::new();
    daemon.append("daemon:  ");
    if s.daemon_active {
        daemon.append("active");
    } else {
        daemon.append("inactive (run `netmeter daemon install`)");
    }
    let mut nft = String::new();
    nft.append("nft:     ");
    if s.split {
        nft.append("split available (LAN/WAN/TOTAL)");
    } else {
        nft.append("unavailable → TOTAL-only");
    }
    let mut db = String::new();
    db.append("db:      ");
    db.append(s.db_path.as_str());
    db.append(" (");
    push_decimal(&mut db, s.db_bytes as u128);
    db.append(" bytes, wal ");
    push_decimal(&mut db, s.wal_bytes as u128);
    db.append(" bytes)");
    let mut discarded = String::new();
    discarded.append("discarded spike samples: ");
    discarded.append(s.discarded.as_str());
    let mut v: Vec<String> = Vec::new();
    proof {
        let want = status_text(*s);
        assert(first@ =~= want[0]);
        assert(daemon@ =~= want[1]);
        assert(nft@ =~= want[2]);
        assert(db@ =~= want[3]);
        assert(discarded@ =~= want[4]);
    }
    v.push(first);
    v.push(daemon);
    v.push(nft);
    v.push(db);
    v.push(discarded);
    assert(texts(v@) =~= status_text(*s));
    v
}

// ---- export ----

/// The heading of an export.
pub open spec fn export_heading() -> Seq<char> {
    "ts,rx,tx,lan_rx,lan_tx,wan_rx,wan_tx"@
}

/// The heading of an export.
pub fn csv_heading() -> (r: String)
    ensures
        r@ == export_heading(),
{
    "ts,rx,tx,lan_rx,lan_tx,wan_rx,wan_tx".to_owned()
}

/// The line of a sample in an export: seven numbers with commas between them.
pub open spec fn export_line(row: Row) -> Seq<char> {
    signed_decimal(row.ts as int) + ","@ + signed_decimal(row.rx as int) + ","@ + signed_decimal(
        row.tx as int,
    ) + ","@ + signed_decimal(row.lan_rx as int) + ","@ + signed_decimal(row.lan_tx as int) + ","@
        + signed_decimal(rest(row.rx as int, row.lan_rx as int)) + ","@ + signed_decimal(
        rest(row.tx as int, row.lan_tx as int),
    )
}

/// The line of a sample in an export; nothing where its sums do not fit.
pub fn csv_line(row: &Row) -> (r: Option<String>)
    ensures
        r is Some <==> row.small(),
        r matches Some(s) ==> s@ == export_line(*row),
{
    if !is_small(row) {
        return None;
    }
    let mut r = String::new();
    push_signed(&mut r, row.ts);
    r.append(",");
    push_signed(&mut r, row.rx);
    r.append(",");
    push_signed(&mut r, row.tx);
    r.append(",");
    push_signed(&mut r, row.lan_rx);
    r.append(",");
    push_signed(&mut r, row.lan_tx);
    r.append(",");
    push_signed(&mut r, row.wan_rx());
    r.append(",");
    push_signed(&mut r, row.wan_tx());
    assert(r@ =~= export_line(*row));
    Some(r)
}

/// A line of an export, taken apart at the commas, is the time and the bytes received and
/// sent, then the local ones, then those from and to outside, which make all of them with
/// the local ones, or are none where more is local than there is; each is read back as the
/// number it is.
#[verifier::spinoff_prover]
pub proof fn exported_lines_are_read_back(row: Row, w_rx: int, w_tx: int)
    requires
        row.small(),
        row.lan_rx <= row.rx ==> row.lan_rx + w_rx == row.rx,
        row.lan_tx <= row.tx ==> row.lan_tx + w_tx == row.tx,
        row.lan_rx > row.rx ==> w_rx == 0,
        row.lan_tx > row.tx ==> w_tx == 0,
    ensures
        ({
            let p = pieces(export_line(row), ',');
            &&& p.len() == 7
            &&& signed_value(p[0]) == Some(row.ts as int)
            &&& signed_value(p[1]) == Some(row.rx as int)
            &&& signed_value(p[2]) == Some(row.tx as int)
            &&& signed_value(p[3]) == Some(row.lan_rx as int)
            &&& signed_value(p[4]) == Some(row.lan_tx as int)
            &&& signed_value(p[5]) == Some(w_rx)
            &&& signed_value(p[6]) == Some(w_tx)
        }),
{
    reveal_strlit(",");
    let (a, b, c, d) = (
        signed_decimal(row.ts as int),
        signed_decimal(row.rx as int),
        signed_decimal(row.tx as int),
        signed_decimal(row.lan_rx as int),
    );
    let (e, f, g) = (
        signed_decimal(row.lan_tx as int),
        signed_decimal(w_rx),
        signed_decimal(w_tx),
    );
    no_comma(row.ts as int);
    no_comma(row.rx as int);
    no_comma(row.tx as int);
    no_comma(row.lan_rx as int);
    no_comma(row.lan_tx as int);
    no_comma(w_rx);
    no_comma(w_tx);
    let comma = seq![','];
    assert(","@ =~= comma);
    let p1 = seq![a];
    let p2 = p1.push(b);
    let p3 = p2.push(c);
    let p4 = p3.push(d);
    let p5 = p4.push(e);
    let p6 = p5.push(f);
    let p7 = p6.push(g);
    assert(p1 =~= Seq::<Seq<char>>::empty().push(a));
    joined_with_one_more(Seq::empty(), a, comma);
    joined_with_one_more(p1, b, comma);
    joined_with_one_more(p2, c, comma);
    joined_with_one_more(p3, d, comma);
    joined_with_one_more(p4, e, comma);
    joined_with_one_more(p5, f, comma);
    joined_with_one_more(p6, g, comma);
    assert(export_line(row) == joined(p7, comma));
    joined_parts_come_apart(p7, ',');
}

proof fn no_comma(n: int)
    requires
        i64::MIN <= n <= i64::MAX,
    ensures
        !signed_decimal(n).contains(','),
        signed_value(signed_decimal(n)) == Some(n),
{
    integers_are_read_back(n);
    let s = signed_decimal(n);
    if s.contains(',') {
        let i = choose|i: int| 0 <= i < s.len() && s[i] == ',';
        assert(s[i] == '-' || ('0' <= s[i] && s[i] <= '9'));
    }
}

/// The heading of an export names as many columns as a line has.
#[verifier::spinoff_prover]
pub proof fn the_heading_names_the_columns()
    ensures
        pieces(export_heading(), ',') == seq![
            "ts"@,
            "rx"@,
            "tx"@,
            "lan_rx"@,
            "lan_tx"@,
            "wan_rx"@,
            "wan_tx"@,
        ],
{
    reveal_strlit("ts,rx,tx,lan_rx,lan_tx,wan_rx,wan_tx");
    reveal_strlit("ts");
    reveal_strlit("rx");
    reveal_strlit("tx");
    reveal_strlit("lan_rx");
    reveal_strlit("lan_tx");
    reveal_strlit("wan_rx");
    reveal_strlit("wan_tx");
    let comma = seq![','];
    let t5 = "wan_rx"@ + comma + "wan_tx"@;
    let t4 = "lan_tx"@ + comma + t5;
    let t3 = "lan_rx"@ + comma + t4;
    let t2 = "tx"@ + comma + t3;
    let t1 = "rx"@ + comma + t2;
    assert(export_heading() =~= "ts"@ + comma + t1);
    pieces_of_two("wan_tx"@, ',', Seq::empty());
    pieces_of_two("wan_rx"@, ',', "wan_tx"@);
    pieces_of_two("lan_tx"@, ',', t5);
    pieces_of_two("lan_rx"@, ',', t4);
    pieces_of_two("tx"@, ',', t3);
    pieces_of_two("rx"@, ',', t2);
    pieces_of_two("ts"@, ',', t1);
    assert(pieces(export_heading(), ',') =~= seq![
        "ts"@,
        "rx"@,
        "tx"@,
        "lan_rx"@,
        "lan_tx"@,
        "wan_rx"@,
        "wan_tx"@,
    ]);
}

/// The status tells the bytes of the database behind its path, and those of its log at the
/// end of the line; the last line ends with what was thrown away.
pub proof fn the_status_tells_the_sizes(s: Status)
    ensures
        ({
            let v = status_text(s);
            let (n, w) = (decimal(s.db_bytes as nat), decimal(s.wal_bytes as nat));
            let line = v[3];
            let p = s.db_path@.len() as int;
            &&& v.len() == 5
            &&& line.subrange(9, 9 + p) == s.db_path@
            &&& line.subrange(11 + p, 11 + p + n.len()) == n
            &&& line.subrange(line.len() - 7 - w.len(), line.len() - 7) == w
            &&& v[4].skip(v[4].len() - s.discarded@.len()) == s.discarded@
        }),
{
    reveal_strlit("db:      ");
    reveal_strlit(" (");
    reveal_strlit(" bytes, wal ");
    reveal_strlit(" bytes)");
    let v = status_text(s);
    let (n, w) = (decimal(s.db_bytes as nat), decimal(s.wal_bytes as nat));
    let line = v[3];
    let p = s.db_path@.len() as int;
    assert(line.subrange(9, 9 + p) =~= s.db_path@);
    assert(line.subrange(11 + p, 11 + p + n.len()) =~= n);
    assert(line.subrange(line.len() - 7 - w.len(), line.len() - 7) =~= w);
    assert(v[4].skip(v[4].len() - s.discarded@.len()) =~= s.discarded@);
}

} // verus!
