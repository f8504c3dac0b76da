//! The date-keyed peer-statistics store.
//!
//! One row per `(date, collector, peer address)`, with at most one row
//! per key.  A whole per-snapshot document is inserted at once; if any
//! of its rows would collide with an existing key, the whole document
//! is rejected unchanged — the collision means the snapshot was
//! already indexed, so rejection is the expected signal, not an error.

use vstd::prelude::*;
use crate::merge::{ymd_digits_ok, ymd_parts, ymd_split_ok};
use crate::strutil::{digits_val, split_spec, split_str};
use crate::types::{string_views, PeerIp, RibPeerInfo};

verus! {

/// The `.`-separated piece of a snapshot locator that carries the
/// date, such as `20220808` in `rib.20220808.1400.bz2`.
pub open spec fn url_date_piece(url: Seq<char>) -> Seq<char> {
    let parts = split_spec(url, '.');
    parts[parts.len() - 3]
}

/// The locator has a third-from-last piece of at least eight
/// characters.
pub open spec fn url_date_shape_ok(url: Seq<char>) -> bool {
    &&& split_spec(url, '.').len() >= 3
    &&& url_date_piece(url).len() >= 8
}

/// The date text derived from a locator: `year-month-day`.
pub open spec fn url_date_text(url: Seq<char>) -> Seq<char> {
    let piece = url_date_piece(url);
    piece.subrange(0, 4) + seq!['-'] + piece.subrange(4, 6) + seq!['-'] + piece.subrange(6, 8)
}

/// Reads year, month and day out of a snapshot locator.
pub fn get_date_from_url(url: &str) -> (r: (String, String, String))
    requires
        url_date_shape_ok(url@),
    ensures
        r.0@ == url_date_piece(url@).subrange(0, 4),
        r.1@ == url_date_piece(url@).subrange(4, 6),
        r.2@ == url_date_piece(url@).subrange(6, 8),
{
    let parts = split_str(url, '.');
    let idx = parts.len() - 3;
    proof {
        assert(string_views(parts@)[idx as int] == parts@[idx as int]@);
    }
    let piece = parts[idx].as_str();
    let year = piece.substring_char(0, 4).to_owned();
    let month = piece.substring_char(4, 6).to_owned();
    let day = piece.substring_char(6, 8).to_owned();
    (year, month, day)
}

/// Reads the snapshot date out of a partial file's name; nothing when
/// a piece is not a decimal number in range.
pub fn get_ymd_from_file(file_path: &str) -> (r: Option<(i32, u32, u32)>)
    requires
        ymd_split_ok(file_path@),
    ensures
        r is Some <==> ymd_digits_ok(file_path@),
        r is Some ==> {
            let parts = ymd_parts(file_path@);
            &&& r->Some_0.0 == digits_val(parts[0])
            &&& r->Some_0.1 == digits_val(parts[1])
            &&& r->Some_0.2 == digits_val(parts[2])
        },
{
    let date_part = split_str(file_path, '_');
    let idx = date_part.len() - 2;
    proof {
        assert(string_views(date_part@)[idx as int] == date_part@[idx as int]@);
    }
    let parts = split_str(date_part[idx].as_str(), '-');
    proof {
        assert(string_views(parts@)[0] == parts@[0]@);
        assert(string_views(parts@)[1] == parts@[1]@);
        assert(string_views(parts@)[2] == parts@[2]@);
    }
    let y = match crate::strutil::parse_i32(parts[0].as_str()) {
        Some(v) => v,
        None => {
            return None;
        },
    };
    let m = match crate::strutil::parse_u32(parts[1].as_str()) {
        Some(v) => v,
        None => {
            return None;
        },
    };
    let d = match crate::strutil::parse_u32(parts[2].as_str()) {
        Some(v) => v,
        None => {
            return None;
        },
    };
    Some((y, m, d))
}

/// One stored row.
pub struct PeerStatsRow {
    pub date: String,
    pub collector: String,
    pub ip: PeerIp,
    pub asn: u32,
    pub num_v4_pfxs: usize,
    pub num_v6_pfxs: usize,
    pub num_connected_asns: usize,
}

/// A row's primary key.
pub type RowKey = (Seq<char>, Seq<char>, PeerIp);

/// The key of a row.
pub open spec fn row_key(r: PeerStatsRow) -> RowKey {
    (r.date@, r.collector@, r.ip)
}

/// No two rows share a key.
pub open spec fn row_keys_distinct(s: Seq<PeerStatsRow>) -> bool {
    forall|i: int, j: int|
        0 <= i < j < s.len() ==> row_key(#[trigger] s[i]) != row_key(#[trigger] s[j])
}

/// Whether some row carries key `k`.
pub open spec fn rows_have_key(s: Seq<PeerStatsRow>, k: RowKey) -> bool {
    exists|i: int| 0 <= i < s.len() && row_key(#[trigger] s[i]) == k
}

/// The peer-statistics time series, one row per key.
pub struct PeerStatsStore {
    pub rows: Vec<PeerStatsRow>,
}

impl PeerStatsStore {
    /// The primary key holds: no key twice.
    pub open spec fn wf(self) -> bool {
        row_keys_distinct(self.rows@)
    }

    /// An empty store.
    pub fn new() -> (r: PeerStatsStore)
        ensures
            r.wf(),
            r.rows@.len() == 0,
    {
        PeerStatsStore { rows: Vec::new() }
    }

    /// Whether nothing has been stored yet.
    pub fn is_db_empty(&self) -> (r: bool)
        ensures
            r == (self.rows@.len() == 0),
    {
        self.rows.len() == 0
    }

    /// Whether a row with the given key exists.
    #[verifier::loop_isolation(false)]
    fn has_key(&self, date: &String, collector: &String, ip: PeerIp) -> (r: bool)
        ensures
            r == rows_have_key(self.rows@, (date@, collector@, ip)),
    {
        let ghost k: RowKey = (date@, collector@, ip);
        let mut i: usize = 0;
        let mut hit = false;
        while !hit && i < self.rows.len()
            invariant
                0 <= i <= self.rows@.len(),
                !hit ==> forall|j: int| 0 <= j < i ==> row_key(#[trigger] self.rows@[j]) != k,
                hit ==> rows_have_key(self.rows@, k),
            decreases self.rows@.len() - i + (if hit { 0int } else { 1int }),
        {
            let row = &self.rows[i];
            if row.ip == ip && row.date == *date && row.collector == *collector {
                hit = true;
                proof {
                    assert(row_key(self.rows@[i as int]) == k);
                }
            } else {
                proof {
                    assert(row_key(self.rows@[i as int]) != k);
                }
                i += 1;
            }
        }
        proof {
            if !hit {
                if rows_have_key(self.rows@, k) {
                    let j = choose|j: int|
                        0 <= j < self.rows@.len() && row_key(#[trigger] self.rows@[j]) == k;
                    assert(false);
                }
            }
        }
        hit
    }

    /// Inserts one snapshot's per-peer statistics, one row per peer,
    /// keyed by the date derived from the snapshot locator and the
    /// collector.  If any key — including a duplicate within the
    /// document — already exists, nothing is stored and the insert
    /// reports rejection: the snapshot counts as already processed.
    #[verifier::loop_isolation(false)]
    pub fn insert_rib_info(&mut self, rib_info: &RibPeerInfo) -> (ok: bool)
        requires
            old(self).wf(),
            url_date_shape_ok(rib_info.rib_dump_url@),
        ensures
            final(self).wf(),
            ok == ({
                let date = url_date_text(rib_info.rib_dump_url@);
                let ps = rib_info.peers@;
                &&& (forall|i: int|
                    0 <= i < ps.len() ==> !rows_have_key(
                        old(self).rows@,
                        (date, rib_info.collector@, (#[trigger] ps[i]).ip),
                    ))
                &&& (forall|i: int, j: int|
                    0 <= i < j < ps.len() ==> (#[trigger] ps[i]).ip != (#[trigger] ps[j]).ip)
            }),
            !ok ==> final(self).rows@ == old(self).rows@,
            ok ==> {
                let date = url_date_text(rib_info.rib_dump_url@);
                let ps = rib_info.peers@;
                &&& final(self).rows@.len() == old(self).rows@.len() + ps.len()
                &&& (forall|i: int|
                    0 <= i < old(self).rows@.len() ==> final(self).rows@[i] == old(self).rows@[i])
                &&& (forall|i: int|
                    0 <= i < ps.len() ==> {
                        let row = #[trigger] final(self).rows@[old(self).rows@.len() + i];
                        &&& row.date@ == date
                        &&& row.collector@ == rib_info.collector@
                        &&& row.ip == ps[i].ip
                        &&& row.asn == ps[i].asn
                        &&& row.num_v4_pfxs == ps[i].num_v4_pfxs
                        &&& row.num_v6_pfxs == ps[i].num_v6_pfxs
                        &&& row.num_connected_asns == ps[i].num_connected_asns
                    })
            },
    {
        let (year, month, day) = get_date_from_url(rib_info.rib_dump_url.as_str());
        let mut date = year;
        date.append("-");
        date.append(month.as_str());
        date.append("-");
        date.append(day.as_str());
        proof {
            reveal_strlit("-");
            assert("-"@ =~= seq!['-']);
            assert(date@ =~= url_date_text(rib_info.rib_dump_url@));
        }
        let ghost dt = url_date_text(rib_info.rib_dump_url@);
        let ghost ps = rib_info.peers@;
        let ghost rows0 = self.rows@;
        // check every key first: the insert is all or nothing
        let mut i: usize = 0;
        while i < rib_info.peers.len()
            invariant
                0 <= i <= ps.len(),
                self.rows@ == rows0,
                date@ == dt,
                forall|j: int|
                    0 <= j < i ==> !rows_have_key(
                        rows0,
                        (dt, rib_info.collector@, (#[trigger] ps[j]).ip),
                    ),
                forall|j: int, l: int|
                    0 <= j < l < i ==> (#[trigger] ps[j]).ip != (#[trigger] ps[l]).ip,
            decreases ps.len() - i,
        {
            let p = &rib_info.peers[i];
            if self.has_key(&date, &rib_info.collector, p.ip) {
                return false;
            }
            let mut j: usize = 0;
            while j < i
                invariant
                    0 <= j <= i < ps.len(),
                    forall|l: int| 0 <= l < j ==> (#[trigger] ps[l]).ip != ps[i as int].ip,
                decreases i - j,
            {
                if rib_info.peers[j].ip == p.ip {
                    return false;
                }
                j += 1;
            }
            i += 1;
        }
        // no collision: append every row
        let mut n: usize = 0;
        while n < rib_info.peers.len()
            invariant
                0 <= n <= ps.len(),
                date@ == dt,
                self.rows@.len() == rows0.len() + n,
                forall|j: int| 0 <= j < rows0.len() ==> #[trigger] self.rows@[j] == rows0[j],
                forall|j: int|
                    0 <= j < n ==> {
                        let row = #[trigger] self.rows@[rows0.len() + j];
                        &&& row.date@ == dt
                        &&& row.collector@ == rib_info.collector@
                        &&& row.ip == ps[j].ip
                        &&& row.asn == ps[j].asn
                        &&& row.num_v4_pfxs == ps[j].num_v4_pfxs
                        &&& row.num_v6_pfxs == ps[j].num_v6_pfxs
                        &&& row.num_connected_asns == ps[j].num_connected_asns
                    },
            decreases ps.len() - n,
        {
            let p = &rib_info.peers[n];
            self.rows.push(
                PeerStatsRow {
                    date: date.clone(),
                    collector: rib_info.collector.clone(),
                    ip: p.ip,
                    asn: p.asn,
                    num_v4_pfxs: p.num_v4_pfxs,
                    num_v6_pfxs: p.num_v6_pfxs,
                    num_connected_asns: p.num_connected_asns,
                },
            );
            n += 1;
        }
        proof {
            assert forall|a: int, b: int| 0 <= a < b < self.rows@.len() implies row_key(
                #[trigger] self.rows@[a],
            ) != row_key(#[trigger] self.rows@[b]) by {
                if b < rows0.len() {
                    assert(self.rows@[a] == rows0[a]);
                    assert(self.rows@[b] == rows0[b]);
                } else if a < rows0.len() {
                    let j = b - rows0.len();
                    let rowb = self.rows@[rows0.len() + j];
                    assert(rowb == self.rows@[b]);
                    assert(rowb.date@ == dt && rowb.collector@ == rib_info.collector@ && rowb.ip
                        == ps[j].ip);
                    assert(!rows_have_key(rows0, (dt, rib_info.collector@, ps[j].ip)));
                    if row_key(self.rows@[a]) == row_key(self.rows@[b]) {
                        assert(row_key(rows0[a]) == (dt, rib_info.collector@, ps[j].ip));
                        assert(rows_have_key(rows0, (dt, rib_info.collector@, ps[j].ip)));
                    }
                } else {
                    let ja = a - rows0.len();
                    let jb = b - rows0.len();
                    let rowa = self.rows@[rows0.len() + ja];
                    let rowb = self.rows@[rows0.len() + jb];
                    assert(rowa == self.rows@[a]);
                    assert(rowb == self.rows@[b]);
                    assert(rowa.ip == ps[ja].ip);
                    assert(rowb.ip == ps[jb].ip);
                    assert(ps[ja].ip != ps[jb].ip);
                }
            }
        }
        true
    }
}

} // verus!
