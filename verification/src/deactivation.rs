//! The deactivation log: an append-only record of account-status
//! transitions and their reversals, parsed from and serialized to a
//! line-delimited format, with validation and derived views.

use vstd::prelude::*;
use crate::text::{
    dec_repr, dec_val, lemma_dec_repr_val, lemma_find_from_at, lemma_find_from_at_none,
    parse_u64_dec, split_bytes, split_from, u64_to_dec, valid_u64_dec,
};

verus! {

/// A terminal account status, as the upstream integer codes report it:
/// 50 for an account that no longer exists, 63 for a suspension.
#[derive(Clone, Copy, Debug, PartialEq, Eq)]
pub enum UserStatus {
    NotFound,
    Suspended,
}

/// The upstream code of a status.
pub open spec fn code_of(s: UserStatus) -> u64 {
    match s {
        UserStatus::NotFound => 50,
        UserStatus::Suspended => 63,
    }
}

impl UserStatus {
    /// The upstream integer code.
    pub fn code(&self) -> (r: u64)
        ensures
            r == code_of(*self),
    {
        match self {
            UserStatus::NotFound => 50,
            UserStatus::Suspended => 63,
        }
    }
}

/// One observed transition: the status seen, when it was observed, and
/// when it was seen to no longer hold, if ever.
#[derive(Clone, Copy, Debug, PartialEq, Eq)]
#[verifier::ext_equal]
pub struct Entry {
    pub status: UserStatus,
    pub observed: u64,
    pub reversal: Option<u64>,
}

/// A structured parse failure, carrying the offending field.
#[derive(Debug, PartialEq, Eq)]
pub enum Error {
    InvalidUserId(Option<Vec<u8>>),
    InvalidTwitterErrorCode(Option<Vec<u8>>),
    InvalidTimestamp(Option<Vec<u8>>),
}

/// Mathematical image of an [`Error`].
#[verifier::ext_equal]
pub enum ErrView {
    InvalidUserId(Option<Seq<u8>>),
    InvalidTwitterErrorCode(Option<Seq<u8>>),
    InvalidTimestamp(Option<Seq<u8>>),
}

impl DeepView for Error {
    type V = ErrView;

    open spec fn deep_view(&self) -> ErrView {
        match self {
            Error::InvalidUserId(o) => ErrView::InvalidUserId(
                match o {
                    Some(v) => Some(v@),
                    None => None,
                },
            ),
            Error::InvalidTwitterErrorCode(o) => ErrView::InvalidTwitterErrorCode(
                match o {
                    Some(v) => Some(v@),
                    None => None,
                },
            ),
            Error::InvalidTimestamp(o) => ErrView::InvalidTimestamp(
                match o {
                    Some(v) => Some(v@),
                    None => None,
                },
            ),
        }
    }
}

/// The log: per-user entry lists, ids strictly ascending, every list
/// non-empty, entries in the order they were recorded.
#[derive(Debug)]
pub struct Log {
    entries: Vec<(u64, Vec<Entry>)>,
}

/// The abstract log: a sequence of (user id, entries) rows.
pub type LogView = Seq<(u64, Seq<Entry>)>;

impl View for Log {
    type V = LogView;

    closed spec fn view(&self) -> LogView {
        self.entries@.map_values(|p: (u64, Vec<Entry>)| (p.0, p.1@))
    }
}

/// Ids strictly ascending and every entry list non-empty.
pub open spec fn log_wf(m: LogView) -> bool {
    &&& forall|i: int, j: int| 0 <= i < j < m.len() ==> m[i].0 < m[j].0
    &&& forall|i: int| 0 <= i < m.len() ==> (#[trigger] m[i]).1.len() > 0
}

/// Index of a user's row, or -1.
pub open spec fn log_find(m: LogView, id: u64) -> int
    decreases m.len(),
{
    if m.len() == 0 {
        -1
    } else if m[0].0 == id {
        0
    } else {
        let r = log_find(m.skip(1), id);
        if r == -1 {
            -1
        } else {
            r + 1
        }
    }
}

/// Index of the first row whose id exceeds `id`, or the length.
pub open spec fn log_ipos(m: LogView, id: u64) -> int
    decreases m.len(),
{
    if m.len() == 0 {
        0
    } else if m[0].0 > id {
        0
    } else {
        1 + log_ipos(m.skip(1), id)
    }
}

/// The log after recording one entry for a user: appended to the user's
/// list, or a new row in id order.
pub open spec fn log_insert(m: LogView, id: u64, e: Entry) -> LogView {
    let j = log_find(m, id);
    if j >= 0 {
        m.update(j, (id, m[j].1.push(e)))
    } else {
        m.insert(log_ipos(m, id), (id, seq![e]))
    }
}

pub proof fn lemma_log_find_spec(m: LogView, id: u64)
    ensures
        ({
            let r = log_find(m, id);
            &&& r == -1 ==> forall|i: int| 0 <= i < m.len() ==> (#[trigger] m[i]).0 != id
            &&& r != -1 ==> 0 <= r < m.len() && m[r].0 == id && (forall|i: int|
                0 <= i < r ==> (#[trigger] m[i]).0 != id)
        }),
    decreases m.len(),
{
    if m.len() == 0 {
    } else if m[0].0 == id {
    } else {
        lemma_log_find_spec(m.skip(1), id);
        let rs = log_find(m.skip(1), id);
        let r = log_find(m, id);
        if rs == -1 {
            assert forall|i: int| 0 <= i < m.len() implies (#[trigger] m[i]).0 != id by {
                if i > 0 {
                    assert(m.skip(1)[i - 1] == m[i]);
                }
            }
        } else {
            assert(m.skip(1)[rs] == m[rs + 1]);
            assert forall|i: int| 0 <= i < r implies (#[trigger] m[i]).0 != id by {
                if i > 0 {
                    assert(m.skip(1)[i - 1] == m[i]);
                }
            }
        }
    }
}

pub proof fn lemma_log_find_at(m: LogView, id: u64, j: int)
    requires
        0 <= j < m.len(),
        m[j].0 == id,
        forall|i: int| 0 <= i < j ==> (#[trigger] m[i]).0 != id,
    ensures
        log_find(m, id) == j,
    decreases m.len(),
{
    if j == 0 {
    } else {
        assert(forall|i: int| 0 <= i < m.skip(1).len() ==> m.skip(1)[i] == m[i + 1]);
        lemma_log_find_at(m.skip(1), id, j - 1);
    }
}

pub proof fn lemma_log_find_none(m: LogView, id: u64)
    requires
        forall|i: int| 0 <= i < m.len() ==> (#[trigger] m[i]).0 != id,
    ensures
        log_find(m, id) == -1,
    decreases m.len(),
{
    if m.len() == 0 {
    } else {
        assert(forall|i: int| 0 <= i < m.skip(1).len() ==> m.skip(1)[i] == m[i + 1]);
        lemma_log_find_none(m.skip(1), id);
    }
}

pub proof fn lemma_log_ipos_spec(m: LogView, id: u64)
    ensures
        ({
            let r = log_ipos(m, id);
            &&& 0 <= r <= m.len()
            &&& forall|i: int| 0 <= i < r ==> (#[trigger] m[i]).0 <= id
            &&& r < m.len() ==> m[r].0 > id
        }),
    decreases m.len(),
{
    if m.len() == 0 {
    } else if m[0].0 > id {
    } else {
        lemma_log_ipos_spec(m.skip(1), id);
        let rs = log_ipos(m.skip(1), id);
        assert forall|i: int| 0 <= i < rs + 1 implies (#[trigger] m[i]).0 <= id by {
            if i > 0 {
                assert(m.skip(1)[i - 1] == m[i]);
            }
        }
        if rs < m.skip(1).len() {
            assert(m.skip(1)[rs] == m[rs + 1]);
        }
    }
}

pub proof fn lemma_log_ipos_at(m: LogView, id: u64, k: int)
    requires
        0 <= k <= m.len(),
        forall|i: int| 0 <= i < k ==> (#[trigger] m[i]).0 <= id,
        k < m.len() ==> m[k].0 > id,
    ensures
        log_ipos(m, id) == k,
    decreases m.len(),
{
    if m.len() == 0 {
    } else if k == 0 {
    } else {
        assert(forall|i: int| 0 <= i < m.skip(1).len() ==> m.skip(1)[i] == m[i + 1]);
        lemma_log_ipos_at(m.skip(1), id, k - 1);
    }
}

/// Reads one line: `user_id,status_code,observed_epoch,reversal_epoch`,
/// where the reversal field may be empty. Extra fields are ignored.
pub open spec fn parse_line(line: Seq<u8>) -> Result<(u64, Entry), ErrView> {
    let fs = split_from(line, 0, line.len() as int, 44);
    if !valid_u64_dec(fs[0]) {
        Err(ErrView::InvalidUserId(Some(fs[0])))
    } else {
        let id = dec_val(fs[0]) as u64;
        if fs.len() < 2 {
            Err(ErrView::InvalidTwitterErrorCode(None))
        } else if !(valid_u64_dec(fs[1]) && (dec_val(fs[1]) == 50 || dec_val(fs[1]) == 63)) {
            Err(ErrView::InvalidTwitterErrorCode(Some(fs[1])))
        } else {
            let status = if dec_val(fs[1]) == 63 {
                UserStatus::Suspended
            } else {
                UserStatus::NotFound
            };
            if fs.len() < 3 {
                Err(ErrView::InvalidTimestamp(None))
            } else if !valid_u64_dec(fs[2]) {
                Err(ErrView::InvalidTimestamp(Some(fs[2])))
            } else {
                let observed = dec_val(fs[2]) as u64;
                if fs.len() < 4 {
                    Err(ErrView::InvalidTimestamp(None))
                } else if fs[3].len() == 0 {
                    Ok((id, Entry { status, observed, reversal: None }))
                } else if !valid_u64_dec(fs[3]) {
                    Err(ErrView::InvalidTimestamp(Some(fs[3])))
                } else {
                    Ok((id, Entry { status, observed, reversal: Some(dec_val(fs[3]) as u64) }))
                }
            }
        }
    }
}

/// The lines of a file: one per newline, a trailing newline closing the
/// last line rather than opening an empty one.
pub open spec fn split_lines(s: Seq<u8>) -> Seq<Seq<u8>> {
    if s.len() == 0 {
        Seq::empty()
    } else if s.last() == 10 {
        split_from(s, 0, s.len() - 1, 10)
    } else {
        split_from(s, 0, s.len() as int, 10)
    }
}

/// The log read from a sequence of lines: each line's entry recorded in
/// order, the first malformed line aborting the read.
pub open spec fn read_lines(lines: Seq<Seq<u8>>) -> Result<LogView, ErrView>
    decreases lines.len(),
{
    if lines.len() == 0 {
        Ok(Seq::empty())
    } else {
        match read_lines(lines.take(lines.len() - 1)) {
            Err(e) => Err(e),
            Ok(m) => match parse_line(lines.last()) {
                Err(e) => Err(e),
                Ok((id, e)) => Ok(log_insert(m, id, e)),
            },
        }
    }
}

/// An error on one line makes the whole read fail with that error.
proof fn lemma_read_lines_err(lines: Seq<Seq<u8>>, i: int, n: int)
    requires
        0 <= i < n <= lines.len(),
        read_lines(lines.take(i)) is Ok,
        parse_line(lines[i]) is Err,
    ensures
        read_lines(lines.take(n)) == Err::<LogView, ErrView>(parse_line(lines[i])->Err_0),
    decreases n - i,
{
    if n == i + 1 {
        assert(lines.take(n).take(n - 1) =~= lines.take(i));
        assert(lines.take(n).last() == lines[i]);
    } else {
        lemma_read_lines_err(lines, i, n - 1);
        assert(lines.take(n).take(n - 1) =~= lines.take(n - 1));
    }
}

impl Log {
    pub open spec fn wf(&self) -> bool {
        log_wf(self@)
    }

    /// An empty log.
    pub fn new() -> (r: Log)
        ensures
            r.wf(),
            r@ == Seq::<(u64, Seq<Entry>)>::empty(),
    {
        let r = Log { entries: Vec::new() };
        proof {
            assert(r@ =~= Seq::<(u64, Seq<Entry>)>::empty());
        }
        r
    }

    /// Index of a user's row, if present.
    fn find_index(&self, id: u64) -> (r: Option<usize>)
        ensures
            r is None ==> log_find(self@, id) == -1,
            r matches Some(j) ==> log_find(self@, id) == j,
    {
        let mut i: usize = 0;
        while i < self.entries.len()
            invariant
                0 <= i <= self.entries.len(),
                self@.len() == self.entries.len(),
                forall|k: int| 0 <= k < i ==> (#[trigger] self@[k]).0 != id,
            decreases self.entries.len() - i,
        {
            if self.entries[i].0 == id {
                proof {
                    lemma_log_find_at(self@, id, i as int);
                }
                return Some(i);
            }
            i = i + 1;
        }
        proof {
            lemma_log_find_none(self@, id);
        }
        None
    }

    /// Records one entry: appended to the user's list, or a new row.
    pub fn add_entry(&mut self, id: u64, e: Entry)
        requires
            old(self).wf(),
        ensures
            final(self).wf(),
            final(self)@ == log_insert(old(self)@, id, e),
    {
        let ghost v0 = self@;
        match self.find_index(id) {
            Some(j) => {
                proof {
                    lemma_log_find_spec(v0, id);
                }
                let mut row = self.entries.remove(j);
                row.1.push(e);
                self.entries.insert(j, row);
                proof {
                    assert(self@ =~~= v0.update(j as int, (id, v0[j as int].1.push(e))));
                    let v1 = self@;
                    assert(final(self).wf());
                }
            },
            None => {
                proof {
                    lemma_log_find_spec(v0, id);
                    lemma_log_ipos_spec(v0, id);
                }
                let ins = self.find_ipos(id);
                let mut es: Vec<Entry> = Vec::new();
                es.push(e);
                self.entries.insert(ins, (id, es));
                proof {
                    let ip = ins as int;
                    assert(es@ =~= seq![e]);
                    assert(self@ =~~= v0.insert(ip, (id, seq![e])));
                    let v1 = self@;
                    v0.insert_ensures(ip, (id, seq![e]));
                    assert forall|i: int, j: int|
                        0 <= i < j < v1.len() implies v1[i].0 < v1[j].0 by {
                        if i < ip && j < ip {
                        } else if i < ip && j == ip {
                            assert(v0[i].0 != id);
                        } else if i < ip && j > ip {
                            assert(v1[j] == v0[j - 1]);
                        } else if i == ip && j > ip {
                            assert(v1[j] == v0[j - 1]);
                        } else if i > ip && j > ip {
                            assert(v1[i] == v0[i - 1]);
                            assert(v1[j] == v0[j - 1]);
                        }
                    }
                    assert forall|i: int| 0 <= i < v1.len() implies (#[trigger] v1[i]).1.len()
                        > 0 by {
                        if i < ip {
                        } else if i > ip {
                            assert(v1[i] == v0[i - 1]);
                        }
                    }
                    assert(final(self).wf());
                }
            },
        }
    }

    /// Index of the first row whose id exceeds `id`.
    fn find_ipos(&self, id: u64) -> (r: usize)
        requires
            self.wf(),
        ensures
            r == log_ipos(self@, id),
            r <= self.entries.len(),
    {
        let mut i: usize = 0;
        while i < self.entries.len()
            invariant
                0 <= i <= self.entries.len(),
                self@.len() == self.entries.len(),
                forall|k: int| 0 <= k < i ==> (#[trigger] self@[k]).0 <= id,
            decreases self.entries.len() - i,
        {
            if self.entries[i].0 > id {
                proof {
                    lemma_log_ipos_at(self@, id, i as int);
                }
                return i;
            }
            i = i + 1;
        }
        proof {
            lemma_log_ipos_at(self@, id, self@.len() as int);
        }
        self.entries.len()
    }

    /// Parses a whole deactivation file: one entry per line, the first
    /// malformed field reported with its bytes.
    pub fn read(bytes: &[u8]) -> (r: Result<Log, Error>)
        ensures
            read_lines(split_lines(bytes@)) matches Ok(m) ==> r matches Ok(log) && log@ == m
                && log.wf(),
            read_lines(split_lines(bytes@)) matches Err(e) ==> r matches Err(err)
                && err.deep_view() == e,
    {
        let n = bytes.len();
        let end: usize = if n > 0 && bytes[n - 1] == 10 {
            n - 1
        } else {
            n
        };
        let mut log = Log::new();
        if n == 0 {
            proof {
                assert(split_lines(bytes@) =~= Seq::<Seq<u8>>::empty());
            }
            return Ok(log);
        }
        let lines = split_bytes(bytes, 0, end, 10);
        let ghost lv = split_lines(bytes@);
        proof {
            assert(lines.deep_view() == lv);
            assert(lv.take(0) =~= Seq::<Seq<u8>>::empty());
        }
        let mut i: usize = 0;
        while i < lines.len()
            invariant
                0 <= i <= lines.len(),
                lv == lines.deep_view(),
                lv == split_lines(bytes@),
                lv.len() == lines.len(),
                log.wf(),
                read_lines(lv.take(i as int)) == Ok::<LogView, ErrView>(log@),
            decreases lines.len() - i,
        {
            proof {
                assert(lines@[i as int]@ =~= lines.deep_view()[i as int]);
            }
            match Self::parse_line_exec(&lines[i]) {
                Ok((id, e)) => {
                    log.add_entry(id, e);
                    proof {
                        assert(lv.take(i + 1).take(i as int) =~= lv.take(i as int));
                        assert(lv.take(i + 1).last() == lv[i as int]);
                    }
                },
                Err(err) => {
                    proof {
                        lemma_read_lines_err(lv, i as int, lv.len() as int);
                        assert(lv.take(lv.len() as int) =~= lv);
                    }
                    return Err(err);
                },
            }
            i = i + 1;
        }
        proof {
            assert(lv.take(lv.len() as int) =~= lv);
        }
        Ok(log)
    }

    /// Reads one line, mirroring [`parse_line`].
    fn parse_line_exec(line: &Vec<u8>) -> (r: Result<(u64, Entry), Error>)
        ensures
            r matches Ok((id, e)) ==> parse_line(line@) == Ok::<(u64, Entry), ErrView>((id, e)),
            r matches Err(err) ==> parse_line(line@) == Err::<(u64, Entry), ErrView>(
                err.deep_view(),
            ),
    {
        let fs = split_bytes(line.as_slice(), 0, line.len(), 44);
        proof {
            let fsv = fs.deep_view();
            assert(fsv == split_from(line@, 0, line@.len() as int, 44));
            assert(fsv.len() >= 1);
            assert(fs@.len() == fsv.len());
            assert forall|k: int| 0 <= k < fs@.len() implies #[trigger] fsv[k] == fs@[k]@ by {
                assert(fsv[k] =~= fs@[k]@);
            }
        }
        let id = match parse_u64_dec(fs[0].as_slice()) {
            Some(v) => v,
            None => {
                return Err(Error::InvalidUserId(Some(crate::profile::copy_bytes(&fs[0]))));
            },
        };
        if fs.len() < 2 {
            return Err(Error::InvalidTwitterErrorCode(None));
        }
        let status = match parse_u64_dec(fs[1].as_slice()) {
            Some(50) => UserStatus::NotFound,
            Some(63) => UserStatus::Suspended,
            _ => {
                return Err(Error::InvalidTwitterErrorCode(Some(crate::profile::copy_bytes(&fs[1]))));
            },
        };
        if fs.len() < 3 {
            return Err(Error::InvalidTimestamp(None));
        }
        let observed = match parse_u64_dec(fs[2].as_slice()) {
            Some(v) => v,
            None => {
                return Err(Error::InvalidTimestamp(Some(crate::profile::copy_bytes(&fs[2]))));
            },
        };
        if fs.len() < 4 {
            return Err(Error::InvalidTimestamp(None));
        }
        let reversal = if fs[3].len() == 0 {
            None
        } else {
            match parse_u64_dec(fs[3].as_slice()) {
                Some(v) => Some(v),
                None => {
                    return Err(Error::InvalidTimestamp(Some(crate::profile::copy_bytes(&fs[3]))));
                },
            }
        };
        Ok((id, Entry { status, observed, reversal }))
    }
}


/// One rendered line: the four fields comma-separated, newline-terminated,
/// an open reversal rendered as the empty field.
pub open spec fn render_entry(id: u64, e: Entry) -> Seq<u8> {
    dec_repr(id) + seq![44u8] + dec_repr(code_of(e.status)) + seq![44u8] + dec_repr(e.observed)
        + seq![44u8] + (match e.reversal {
        None => Seq::<u8>::empty(),
        Some(t) => dec_repr(t),
    }) + seq![10u8]
}

/// A user's lines in stored order.
pub open spec fn render_entries(id: u64, es: Seq<Entry>) -> Seq<u8>
    decreases es.len(),
{
    if es.len() == 0 {
        Seq::empty()
    } else {
        render_entry(id, es[0]) + render_entries(id, es.skip(1))
    }
}

/// The whole file: users in ascending id order.
pub open spec fn render_log(m: LogView) -> Seq<u8>
    decreases m.len(),
{
    if m.len() == 0 {
        Seq::empty()
    } else {
        render_entries(m[0].0, m[0].1) + render_log(m.skip(1))
    }
}

pub proof fn lemma_render_entries_add(id: u64, a: Seq<Entry>, b: Seq<Entry>)
    ensures
        render_entries(id, a + b) == render_entries(id, a) + render_entries(id, b),
    decreases a.len(),
{
    if a.len() == 0 {
        assert(a + b =~= b);
        assert(render_entries(id, a) + render_entries(id, b) =~= render_entries(id, b));
    } else {
        lemma_render_entries_add(id, a.skip(1), b);
        assert((a + b).skip(1) =~= a.skip(1) + b);
        assert(render_entries(id, a + b) =~= render_entries(id, a) + render_entries(id, b));
    }
}

pub proof fn lemma_render_log_add(a: LogView, b: LogView)
    ensures
        render_log(a + b) == render_log(a) + render_log(b),
    decreases a.len(),
{
    if a.len() == 0 {
        assert(a + b =~= b);
        assert(render_log(a) + render_log(b) =~= render_log(b));
    } else {
        lemma_render_log_add(a.skip(1), b);
        assert((a + b).skip(1) =~= a.skip(1) + b);
        assert(render_log(a + b) =~= render_log(a) + render_log(b));
    }
}

/// Every entry of the list is still open.
pub open spec fn all_open(es: Seq<Entry>) -> bool {
    forall|i: int| 0 <= i < es.len() ==> (#[trigger] es[i]).reversal is None
}

/// Every entry of the list has been reversed.
pub open spec fn all_closed(es: Seq<Entry>) -> bool {
    forall|i: int| 0 <= i < es.len() ==> (#[trigger] es[i]).reversal is Some
}

/// Some entry records a suspension.
pub open spec fn has_suspended(es: Seq<Entry>) -> bool {
    exists|i: int| 0 <= i < es.len() && (#[trigger] es[i]).status == UserStatus::Suspended
}

/// The status of the first still-open entry.
pub open spec fn first_open(es: Seq<Entry>) -> Option<UserStatus>
    decreases es.len(),
{
    if es.len() == 0 {
        None
    } else if es[0].reversal is None {
        Some(es[0].status)
    } else {
        first_open(es.skip(1))
    }
}

/// Ids of users whose every entry is unreversed.
pub open spec fn current_deactivated_ids(m: LogView) -> Seq<u64>
    decreases m.len(),
{
    if m.len() == 0 {
        Seq::empty()
    } else {
        let rest = current_deactivated_ids(m.skip(1));
        if all_open(m[0].1) {
            seq![m[0].0] + rest
        } else {
            rest
        }
    }
}

/// Ids of every user with any entry.
pub open spec fn ever_deactivated_ids(m: LogView) -> Seq<u64>
    decreases m.len(),
{
    if m.len() == 0 {
        Seq::empty()
    } else {
        seq![m[0].0] + ever_deactivated_ids(m.skip(1))
    }
}

/// Ids whose last entry is a suspension and no entry is open.
pub open spec fn current_suspended_ids(m: LogView) -> Seq<u64>
    decreases m.len(),
{
    if m.len() == 0 {
        Seq::empty()
    } else {
        let rest = current_suspended_ids(m.skip(1));
        if all_closed(m[0].1) && m[0].1.len() > 0 && m[0].1.last().status
            == UserStatus::Suspended {
            seq![m[0].0] + rest
        } else {
            rest
        }
    }
}

/// Ids with any suspension entry.
pub open spec fn ever_suspended_ids(m: LogView) -> Seq<u64>
    decreases m.len(),
{
    if m.len() == 0 {
        Seq::empty()
    } else {
        let rest = ever_suspended_ids(m.skip(1));
        if has_suspended(m[0].1) {
            seq![m[0].0] + rest
        } else {
            rest
        }
    }
}

/// The timeline of one user is valid: every entry but possibly the last is
/// reversed, each reversal follows its observation, and each reversal
/// precedes the next observation.
pub open spec fn valid_entries(es: Seq<Entry>) -> bool {
    &&& forall|i: int|
        0 <= i < es.len() - 1 ==> ((#[trigger] es[i].reversal) matches Some(r) && es[i].observed
            < r && r < es[i + 1].observed)
    &&& es.len() > 0 ==> (es.last().reversal matches Some(r) ==> es.last().observed < r)
}

/// Ids whose timeline is empty or invalid.
pub open spec fn invalid_ids(m: LogView) -> Seq<u64>
    decreases m.len(),
{
    if m.len() == 0 {
        Seq::empty()
    } else {
        let rest = invalid_ids(m.skip(1));
        if m[0].1.len() > 0 && valid_entries(m[0].1) {
            rest
        } else {
            seq![m[0].0] + rest
        }
    }
}

/// Whether every user's timeline is valid.
pub open spec fn all_valid(m: LogView) -> bool {
    forall|i: int| 0 <= i < m.len() ==> (#[trigger] m[i]).1.len() > 0 && valid_entries(m[i].1)
}

#[verifier::rlimit(100)]
#[verifier::spinoff_prover]
pub proof fn lemma_invalid_ids_all_valid(m: LogView)
    ensures
        invalid_ids(m).len() == 0 <==> all_valid(m),
    decreases m.len(),
{
    if m.len() == 0 {
    } else {
        lemma_invalid_ids_all_valid(m.skip(1));
        assert(forall|i: int| 0 <= i < m.skip(1).len() ==> m.skip(1)[i] == m[i + 1]);
        if invalid_ids(m).len() == 0 {
            assert forall|i: int|
                0 <= i < m.len() implies (#[trigger] m[i]).1.len() > 0 && valid_entries(m[i].1) by {
                if i > 0 {
                    assert(m.skip(1)[i - 1] == m[i]);
                }
            }
        }
    }
}

/// Membership in a sequence with one element in front.
proof fn lemma_cons_contains(h: u64, t: Seq<u64>, x: u64)
    ensures
        (seq![h] + t).contains(x) <==> (x == h || t.contains(x)),
{
    let s = seq![h] + t;
    if s.contains(x) {
        let k = choose|k: int| 0 <= k < s.len() && s[k] == x;
        if k > 0 {
            assert(t[k - 1] == x);
        }
    }
    if x == h {
        assert(s[0] == x);
    }
    if t.contains(x) {
        let k = choose|k: int| 0 <= k < t.len() && t[k] == x;
        assert(s[k + 1] == x);
    }
}

/// Containment among the derived views: a currently suspended user was
/// ever suspended; a currently deactivated or ever suspended user was
/// ever deactivated.
pub proof fn lemma_status_containment(m: LogView)
    ensures
        forall|x: u64| current_suspended_ids(m).contains(x) ==> ever_suspended_ids(m).contains(x),
        forall|x: u64| current_deactivated_ids(m).contains(x) ==> ever_deactivated_ids(m).contains(
            x,
        ),
        forall|x: u64| ever_suspended_ids(m).contains(x) ==> ever_deactivated_ids(m).contains(x),
    decreases m.len(),
{
    if m.len() == 0 {
    } else {
        lemma_status_containment(m.skip(1));
        let mt = m.skip(1);
        let id0 = m[0].0;
        let es = m[0].1;
        let cs_head = all_closed(es) && es.len() > 0 && es.last().status == UserStatus::Suspended;
        if cs_head {
            assert(has_suspended(es)) by {
                assert(es[es.len() - 1].status == UserStatus::Suspended);
            }
        }
        assert forall|x: u64|
            current_suspended_ids(m).contains(x) implies ever_suspended_ids(m).contains(x) by {
            assert(current_suspended_ids(mt).contains(x) ==> ever_suspended_ids(mt).contains(x));
            if cs_head {
                lemma_cons_contains(id0, current_suspended_ids(mt), x);
            }
            if has_suspended(es) {
                lemma_cons_contains(id0, ever_suspended_ids(mt), x);
            }
        }
        assert forall|x: u64|
            current_deactivated_ids(m).contains(x) implies ever_deactivated_ids(m).contains(x) by {
            assert(current_deactivated_ids(mt).contains(x) ==> ever_deactivated_ids(mt).contains(
                x,
            ));
            if all_open(es) {
                lemma_cons_contains(id0, current_deactivated_ids(mt), x);
            }
            lemma_cons_contains(id0, ever_deactivated_ids(mt), x);
        }
        assert forall|x: u64|
            ever_suspended_ids(m).contains(x) implies ever_deactivated_ids(m).contains(x) by {
            assert(ever_suspended_ids(mt).contains(x) ==> ever_deactivated_ids(mt).contains(x));
            if has_suspended(es) {
                lemma_cons_contains(id0, ever_suspended_ids(mt), x);
            }
            lemma_cons_contains(id0, ever_deactivated_ids(mt), x);
        }
    }
}


/// Every entry of a user as a flat row, users in id order.
pub open spec fn deactivation_rows(m: LogView) -> Seq<(u64, UserStatus, u64, Option<u64>)>
    decreases m.len(),
{
    if m.len() == 0 {
        Seq::empty()
    } else {
        deactivation_rows(m.take(m.len() - 1)) + m.last().1.map_values(
            |e: Entry| (m.last().0, e.status, e.observed, e.reversal),
        )
    }
}

/// The suspension entries of one user as flat rows.
pub open spec fn susp_entries(id: u64, es: Seq<Entry>) -> Seq<(u64, u64, Option<u64>)>
    decreases es.len(),
{
    if es.len() == 0 {
        Seq::empty()
    } else {
        susp_entries(id, es.take(es.len() - 1)) + (if es.last().status == UserStatus::Suspended {
            seq![(id, es.last().observed, es.last().reversal)]
        } else {
            Seq::empty()
        })
    }
}

/// Every suspension entry as a flat row, users in id order.
pub open spec fn suspension_rows(m: LogView) -> Seq<(u64, u64, Option<u64>)>
    decreases m.len(),
{
    if m.len() == 0 {
        Seq::empty()
    } else {
        suspension_rows(m.take(m.len() - 1)) + susp_entries(m.last().0, m.last().1)
    }
}

/// The log and leftover invalid pairs after applying reversals in order:
/// each pair closes the user's last entry when that entry is open, and is
/// rejected otherwise.
pub open spec fn apply_reversals(m: LogView, ps: Seq<(u64, u64)>) -> (LogView, Seq<(u64, u64)>)
    decreases ps.len(),
{
    if ps.len() == 0 {
        (m, Seq::empty())
    } else {
        let (m1, inv1) = apply_reversals(m, ps.take(ps.len() - 1));
        let p = ps.last();
        let j = log_find(m1, p.0);
        if j >= 0 && m1[j].1.len() > 0 && m1[j].1.last().reversal is None {
            let es = m1[j].1;
            let closed = Entry {
                status: es.last().status,
                observed: es.last().observed,
                reversal: Some(p.1),
            };
            (m1.update(j, (p.0, es.update(es.len() - 1, closed))), inv1)
        } else {
            (m1, inv1.push(p))
        }
    }
}

fn all_open_exec(es: &Vec<Entry>) -> (r: bool)
    ensures
        r == all_open(es@),
{
    let mut i: usize = 0;
    while i < es.len()
        invariant
            0 <= i <= es.len(),
            forall|j: int| 0 <= j < i ==> (#[trigger] es@[j]).reversal is None,
        decreases es.len() - i,
    {
        if let Some(_) = es[i].reversal {
            return false;
        }
        i = i + 1;
    }
    true
}

fn all_closed_exec(es: &Vec<Entry>) -> (r: bool)
    ensures
        r == all_closed(es@),
{
    let mut i: usize = 0;
    while i < es.len()
        invariant
            0 <= i <= es.len(),
            forall|j: int| 0 <= j < i ==> (#[trigger] es@[j]).reversal is Some,
        decreases es.len() - i,
    {
        if es[i].reversal.is_none() {
            return false;
        }
        i = i + 1;
    }
    true
}

fn has_suspended_exec(es: &Vec<Entry>) -> (r: bool)
    ensures
        r == has_suspended(es@),
{
    let mut i: usize = 0;
    while i < es.len()
        invariant
            0 <= i <= es.len(),
            forall|j: int| 0 <= j < i ==> (#[trigger] es@[j]).status != UserStatus::Suspended,
        decreases es.len() - i,
    {
        if matches!(es[i].status, UserStatus::Suspended) {
            return true;
        }
        i = i + 1;
    }
    false
}

#[verifier::rlimit(100)]
fn valid_entries_exec(es: &Vec<Entry>) -> (r: bool)
    ensures
        r == valid_entries(es@),
{
    let n = es.len();
    if n == 0 {
        return true;
    }
    let mut i: usize = 0;
    while i < n - 1
        invariant
            0 <= i <= n - 1,
            n == es@.len(),
            n > 0,
            forall|j: int|
                0 <= j < i ==> ((#[trigger] es@[j]).reversal matches Some(r) && es@[j].observed < r
                    && r < es@[j + 1].observed),
        decreases n - 1 - i,
    {
        let ok = match es[i].reversal {
            Some(rv) => es[i].observed < rv && rv < es[i + 1].observed,
            None => false,
        };
        if !ok {
            return false;
        }
        i = i + 1;
    }
    match es[n - 1].reversal {
        Some(rv) => es[n - 1].observed < rv,
        None => true,
    }
}


/// Appends one rendered line.
#[verifier::rlimit(100)]
fn write_entry_line(id: u64, e: Entry, out: &mut Vec<u8>)
    ensures
        final(out)@ == old(out)@ + render_entry(id, e),
{
    let mut t = u64_to_dec(id);
    out.append(&mut t);
    out.push(44);
    let mut t = u64_to_dec(e.status.code());
    out.append(&mut t);
    out.push(44);
    let mut t = u64_to_dec(e.observed);
    out.append(&mut t);
    out.push(44);
    match e.reversal {
        Some(tv) => {
            let mut t = u64_to_dec(tv);
            out.append(&mut t);
        },
        None => {},
    }
    out.push(10);
    proof {
        assert(out@ =~= old(out)@ + render_entry(id, e));
    }
}

impl Log {
    /// The status of the user's first still-open entry, if any.
    pub fn status(&self, user_id: u64) -> (r: Option<UserStatus>)
        ensures
            ({
                let j = log_find(self@, user_id);
                r == (if j >= 0 {
                    first_open(self@[j].1)
                } else {
                    None::<UserStatus>
                })
            }),
    {
        let j = match self.find_index(user_id) {
            Some(j) => j,
            None => {
                return None;
            },
        };
        proof {
            lemma_log_find_spec(self@, user_id);
            assert(j < self@.len());
            assert(self@.len() == self.entries@.len());
        }
        let es = &self.entries[j].1;
        let ghost esv = self@[j as int].1;
        proof {
            assert(esv == es@);
            assert(esv.skip(0) =~= esv);
        }
        let mut i: usize = 0;
        while i < es.len()
            invariant
                0 <= i <= es.len(),
                esv == es@,
                log_find(self@, user_id) == j as int,
                j < self@.len(),
                esv == self@[j as int].1,
                forall|k: int| 0 <= k < i ==> (#[trigger] es@[k]).reversal is Some,
                first_open(esv) == first_open(esv.skip(i as int)),
            decreases es.len() - i,
        {
            proof {
                assert(esv.skip(i as int)[0] == esv[i as int]);
                assert(esv.skip(i as int).skip(1) =~= esv.skip(i + 1));
            }
            if es[i].reversal.is_none() {
                return Some(es[i].status);
            }
            i = i + 1;
        }
        proof {
            assert(esv.skip(i as int).len() == 0);
        }
        None
    }

    /// Users for whom every entry is unreversed, ascending by id.
    ///
    /// A user counts as currently deactivated only when the whole
    /// timeline is open: a reversal anywhere takes the user out of this
    /// view, even when a later entry is still open.
    pub fn current_deactivated(&self) -> (r: Vec<u64>)
        ensures
            r@ == current_deactivated_ids(self@),
    {
        let mut r: Vec<u64> = Vec::new();
        let mut i: usize = self.entries.len();
        proof {
            assert(self@.skip(i as int) =~= Seq::<(u64, Seq<Entry>)>::empty());
        }
        while i > 0
            invariant
                0 <= i <= self.entries.len(),
                self@.len() == self.entries.len(),
                r@ == current_deactivated_ids(self@.skip(i as int)),
            decreases i,
    {
            i = i - 1;
            let ghost before = r@;
            if all_open_exec(&self.entries[i].1) {
                r.insert(0, self.entries[i].0);
            }
            proof {
                assert(self@.skip(i as int)[0] == self@[i as int]);
                assert(self@.skip(i as int).skip(1) =~= self@.skip(i + 1));
                assert(r@ =~= current_deactivated_ids(self@.skip(i as int)));
            }
        }
        proof {
            assert(self@.skip(0) =~= self@);
        }
        r
    }

    /// Every user with any entry, ascending by id.
    pub fn ever_deactivated(&self) -> (r: Vec<u64>)
        ensures
            r@ == ever_deactivated_ids(self@),
    {
        let mut r: Vec<u64> = Vec::new();
        let mut i: usize = self.entries.len();
        proof {
            assert(self@.skip(i as int) =~= Seq::<(u64, Seq<Entry>)>::empty());
        }
        while i > 0
            invariant
                0 <= i <= self.entries.len(),
                self@.len() == self.entries.len(),
                r@ == ever_deactivated_ids(self@.skip(i as int)),
            decreases i,
        {
            i = i - 1;
            r.insert(0, self.entries[i].0);
            proof {
                assert(self@.skip(i as int)[0] == self@[i as int]);
                assert(self@.skip(i as int).skip(1) =~= self@.skip(i + 1));
                assert(r@ =~= ever_deactivated_ids(self@.skip(i as int)));
            }
        }
        proof {
            assert(self@.skip(0) =~= self@);
        }
        r
    }

    /// Users whose last entry is a suspension and who have no open entry,
    /// ascending by id.
    #[verifier::rlimit(100)]
    pub fn current_suspended(&self) -> (r: Vec<u64>)
        ensures
            r@ == current_suspended_ids(self@),
    {
        let mut r: Vec<u64> = Vec::new();
        let mut i: usize = self.entries.len();
        proof {
            assert(self@.skip(i as int) =~= Seq::<(u64, Seq<Entry>)>::empty());
        }
        while i > 0
            invariant
                0 <= i <= self.entries.len(),
                self@.len() == self.entries.len(),
                r@ == current_suspended_ids(self@.skip(i as int)),
            decreases i,
        {
            i = i - 1;
            let es = &self.entries[i].1;
            let keep = if es.len() > 0 {
                let closed = all_closed_exec(es);
                let last_susp = matches!(es[es.len() - 1].status, UserStatus::Suspended);
                closed && last_susp
            } else {
                false
            };
            if keep {
                r.insert(0, self.entries[i].0);
            }
            proof {
                assert(self@.skip(i as int)[0] == self@[i as int]);
                assert(self@.skip(i as int).skip(1) =~= self@.skip(i + 1));
                assert(r@ =~= current_suspended_ids(self@.skip(i as int)));
            }
        }
        proof {
            assert(self@.skip(0) =~= self@);
        }
        r
    }

    /// Users with any suspension entry, ascending by id.
    #[verifier::rlimit(100)]
    pub fn ever_suspended(&self) -> (r: Vec<u64>)
        ensures
            r@ == ever_suspended_ids(self@),
    {
        let mut r: Vec<u64> = Vec::new();
        let mut i: usize = self.entries.len();
        proof {
            assert(self@.skip(i as int) =~= Seq::<(u64, Seq<Entry>)>::empty());
        }
        while i > 0
            invariant
                0 <= i <= self.entries.len(),
                self@.len() == self.entries.len(),
                r@ == ever_suspended_ids(self@.skip(i as int)),
            decreases i,
        {
            i = i - 1;
            if has_suspended_exec(&self.entries[i].1) {
                r.insert(0, self.entries[i].0);
            }
            proof {
                assert(self@.skip(i as int)[0] == self@[i as int]);
                assert(self@.skip(i as int).skip(1) =~= self@.skip(i + 1));
                assert(r@ =~= ever_suspended_ids(self@.skip(i as int)));
            }
        }
        proof {
            assert(self@.skip(0) =~= self@);
        }
        r
    }

    /// Checks every user's timeline; on failure reports the offending
    /// users ascending by id.
    #[verifier::rlimit(100)]
    pub fn validate(&self) -> (r: Result<(), Vec<u64>>)
        ensures
            r is Ok <==> all_valid(self@),
            r matches Err(ids) ==> ids@ == invalid_ids(self@) && ids@.len() > 0,
    {
        let mut bad: Vec<u64> = Vec::new();
        let mut i: usize = self.entries.len();
        proof {
            assert(self@.skip(i as int) =~= Seq::<(u64, Seq<Entry>)>::empty());
        }
        #[verifier::rlimit(100)]
        while i > 0
            invariant
                0 <= i <= self.entries.len(),
                self@.len() == self.entries.len(),
                bad@ == invalid_ids(self@.skip(i as int)),
            decreases i,
        {
            i = i - 1;
            let es = &self.entries[i].1;
            let ok = es.len() > 0 && valid_entries_exec(es);
            if !ok {
                bad.insert(0, self.entries[i].0);
            }
            proof {
                assert(self@.skip(i as int)[0] == self@[i as int]);
                assert(self@.skip(i as int).skip(1) =~= self@.skip(i + 1));
                assert(bad@ =~= invalid_ids(self@.skip(i as int)));
            }
        }
        proof {
            assert(self@.skip(0) =~= self@);
            lemma_invalid_ids_all_valid(self@);
        }
        if bad.len() == 0 {
            Ok(())
        } else {
            Err(bad)
        }
    }

    /// Applies reversals in order: each pair closes the user's last entry
    /// when open, and is returned as invalid otherwise.
    pub fn update(&mut self, reversals: &Vec<(u64, u64)>) -> (r: Result<(), Vec<(u64, u64)>>)
        requires
            old(self).wf(),
        ensures
            final(self).wf(),
            final(self)@ == apply_reversals(old(self)@, reversals@).0,
            r is Ok <==> apply_reversals(old(self)@, reversals@).1.len() == 0,
            r matches Err(inv) ==> inv@ == apply_reversals(old(self)@, reversals@).1,
    {
        let ghost v0 = self@;
        let ghost ps = reversals@;
        let mut invalid: Vec<(u64, u64)> = Vec::new();
        let mut i: usize = 0;
        proof {
            assert(ps.take(0) =~= Seq::<(u64, u64)>::empty());
        }
        while i < reversals.len()
            invariant
                0 <= i <= reversals.len(),
                ps == reversals@,
                self.wf(),
                (self@, invalid@) == apply_reversals(v0, ps.take(i as int)),
            decreases reversals.len() - i,
        {
            let (id, t) = reversals[i];
            let ghost before = self@;
            let ghost inv_before = invalid@;
            match self.find_index(id) {
                Some(j) => {
                    proof {
                        lemma_log_find_spec(before, id);
                    }
                    let open = {
                        let row = &self.entries[j];
                        row.1.len() > 0 && row.1[row.1.len() - 1].reversal.is_none()
                    };
                    if open {
                        let mut row = self.entries.remove(j);
                        let last = row.1.len() - 1;
                        let mut e = match row.1.pop() {
                            Some(e) => e,
                            None => {
                                proof {
                                    assert(false);
                                }
                                Entry { status: UserStatus::NotFound, observed: 0, reversal: None }
                            },
                        };
                        e.reversal = Some(t);
                        row.1.push(e);
                        self.entries.insert(j, row);
                        proof {
                            let es = before[j as int].1;
                            let closed = Entry {
                                status: es.last().status,
                                observed: es.last().observed,
                                reversal: Some(t),
                            };
                            assert(self@ =~~= before.update(
                                j as int,
                                (id, es.update(es.len() - 1, closed)),
                            ));
                        }
                    } else {
                        invalid.push((id, t));
                    }
                },
                None => {
                    proof {
                        lemma_log_find_spec(before, id);
                    }
                    invalid.push((id, t));
                },
            }
            proof {
                assert(ps.take(i + 1).take(i as int) =~= ps.take(i as int));
                assert(ps.take(i + 1).last() == ps[i as int]);
                assert((self@, invalid@) == apply_reversals(v0, ps.take(i + 1)));
            }
            i = i + 1;
        }
        proof {
            assert(ps.take(ps.len() as int) =~= ps);
        }
        if invalid.len() == 0 {
            Ok(())
        } else {
            Err(invalid)
        }
    }

    /// Every entry as a flat (user, status, observed, reversal) row,
    /// users ascending by id.
    pub fn deactivations(&self) -> (r: Vec<(u64, UserStatus, u64, Option<u64>)>)
        ensures
            r@ == deactivation_rows(self@),
    {
        let mut r: Vec<(u64, UserStatus, u64, Option<u64>)> = Vec::new();
        let mut i: usize = 0;
        proof {
            assert(self@.take(0) =~= Seq::<(u64, Seq<Entry>)>::empty());
        }
        while i < self.entries.len()
            invariant
                0 <= i <= self.entries.len(),
                self@.len() == self.entries.len(),
                r@ == deactivation_rows(self@.take(i as int)),
            decreases self.entries.len() - i,
        {
            let id = self.entries[i].0;
            let es = &self.entries[i].1;
            let ghost row = self@[i as int];
            let mut k: usize = 0;
            while k < es.len()
                invariant
                    0 <= k <= es.len(),
                    es@ == row.1,
                    id == row.0,
                    r@ == deactivation_rows(self@.take(i as int)) + row.1.map_values(
                        |e: Entry| (row.0, e.status, e.observed, e.reversal),
                    ).take(k as int),
                    self@.len() == self.entries.len(),
                    i < self.entries.len(),
                    row == self@[i as int],
                decreases es.len() - k,
            {
                r.push((id, es[k].status, es[k].observed, es[k].reversal));
                k = k + 1;
                proof {
                    assert(r@ =~= deactivation_rows(self@.take(i as int)) + row.1.map_values(
                        |e: Entry| (row.0, e.status, e.observed, e.reversal),
                    ).take(k as int));
                }
            }
            proof {
                let mv = row.1.map_values(|e: Entry| (row.0, e.status, e.observed, e.reversal));
                assert(mv.take(mv.len() as int) =~= mv);
                assert(self@.take(i + 1).take(i as int) =~= self@.take(i as int));
                assert(self@.take(i + 1).last() == self@[i as int]);
                assert(r@ =~= deactivation_rows(self@.take(i + 1)));
            }
            i = i + 1;
        }
        proof {
            assert(self@.take(self@.len() as int) =~= self@);
        }
        r
    }

    /// Every suspension entry as a flat (user, observed, reversal) row,
    /// users ascending by id.
    pub fn suspensions(&self) -> (r: Vec<(u64, u64, Option<u64>)>)
        ensures
            r@ == suspension_rows(self@),
    {
        let mut r: Vec<(u64, u64, Option<u64>)> = Vec::new();
        let mut i: usize = 0;
        proof {
            assert(self@.take(0) =~= Seq::<(u64, Seq<Entry>)>::empty());
        }
        while i < self.entries.len()
            invariant
                0 <= i <= self.entries.len(),
                self@.len() == self.entries.len(),
                r@ == suspension_rows(self@.take(i as int)),
            decreases self.entries.len() - i,
        {
            let id = self.entries[i].0;
            let es = &self.entries[i].1;
            let ghost row = self@[i as int];
            let mut k: usize = 0;
            while k < es.len()
                invariant
                    0 <= k <= es.len(),
                    es@ == row.1,
                    id == row.0,
                    r@ == suspension_rows(self@.take(i as int)) + susp_entries(
                        row.0,
                        row.1.take(k as int),
                    ),
                    self@.len() == self.entries.len(),
                    i < self.entries.len(),
                    row == self@[i as int],
                decreases es.len() - k,
            {
                if matches!(es[k].status, UserStatus::Suspended) {
                    r.push((id, es[k].observed, es[k].reversal));
                }
                k = k + 1;
                proof {
                    assert(row.1.take(k as int).take(k - 1) =~= row.1.take(k - 1));
                    assert(row.1.take(k as int).last() == row.1[k - 1]);
                    assert(r@ =~= suspension_rows(self@.take(i as int)) + susp_entries(
                        row.0,
                        row.1.take(k as int),
                    ));
                }
            }
            proof {
                assert(row.1.take(row.1.len() as int) =~= row.1);
                assert(self@.take(i + 1).take(i as int) =~= self@.take(i as int));
                assert(self@.take(i + 1).last() == self@[i as int]);
                assert(r@ =~= suspension_rows(self@.take(i + 1)));
            }
            i = i + 1;
        }
        proof {
            assert(self@.take(self@.len() as int) =~= self@);
        }
        r
    }

    /// Serializes the log: one line per entry, users ascending by id,
    /// entries in stored order.
    pub fn write(&self) -> (r: Vec<u8>)
        ensures
            r@ == render_log(self@),
    {
        let mut ii: usize = 0;
        proof {
            assert(self@.take(0) =~= Seq::<(u64, Seq<Entry>)>::empty());
        }
        let mut acc: Vec<u8> = Vec::new();
        while ii < self.entries.len()
            invariant
                0 <= ii <= self.entries.len(),
                self@.len() == self.entries.len(),
                acc@ == render_log(self@.take(ii as int)),
            decreases self.entries.len() - ii,
        {
            let id = self.entries[ii].0;
            let es = &self.entries[ii].1;
            let ghost row = self@[ii as int];
            let mut k: usize = 0;
            proof {
                assert(render_entries(row.0, row.1.subrange(0, 0)) == Seq::<u8>::empty());
                assert(acc@ + Seq::<u8>::empty() =~= acc@);
            }
            let ghost base = acc@;
            #[verifier::rlimit(100)]
            while k < es.len()
                invariant
                    0 <= k <= es.len(),
                    es@ == row.1,
                    id == row.0,
                    acc@ == base + render_entries(row.0, row.1.take(k as int)),
                decreases es.len() - k,
            {
                let e = es[k];
                write_entry_line(id, e, &mut acc);
                k = k + 1;
                proof {
                    assert(row.1.take(k as int) =~= row.1.take(k - 1) + seq![row.1[k - 1]]);
                    lemma_render_entries_add(row.0, row.1.take(k - 1), seq![row.1[k - 1]]);
                    assert(seq![row.1[k - 1]].skip(1) =~= Seq::<Entry>::empty());
                    assert(render_entries(row.0, Seq::<Entry>::empty()) == Seq::<u8>::empty());
                    assert(render_entries(row.0, seq![row.1[k - 1]]) =~= render_entry(
                        row.0,
                        row.1[k - 1],
                    ));
                    assert(acc@ =~= base + render_entries(row.0, row.1.take(k as int)));
                }
            }
            proof {
                assert(row.1.take(row.1.len() as int) =~= row.1);
                assert(self@.take(ii + 1) =~= self@.take(ii as int) + seq![row]);
                lemma_render_log_add(self@.take(ii as int), seq![row]);
                assert(seq![row].skip(1) =~= Seq::<(u64, Seq<Entry>)>::empty());
                assert(render_log(Seq::<(u64, Seq<Entry>)>::empty()) == Seq::<u8>::empty());
                assert(render_log(seq![row]) =~= render_entries(row.0, row.1));
                assert(acc@ =~= render_log(self@.take(ii + 1)));
            }
            ii = ii + 1;
        }
        proof {
            assert(self@.take(self@.len() as int) =~= self@);
        }
        acc
    }
}


/// First index whose entry was observed after `t`, or the length.
pub open spec fn obs_ipos(s: Seq<Entry>, t: u64) -> int
    decreases s.len(),
{
    if s.len() == 0 {
        0
    } else if s[0].observed > t {
        0
    } else {
        1 + obs_ipos(s.skip(1), t)
    }
}

pub proof fn lemma_obs_ipos_spec(s: Seq<Entry>, t: u64)
    ensures
        ({
            let r = obs_ipos(s, t);
            &&& 0 <= r <= s.len()
            &&& forall|i: int| 0 <= i < r ==> (#[trigger] s[i]).observed <= t
            &&& r < s.len() ==> s[r].observed > t
        }),
    decreases s.len(),
{
    if s.len() == 0 {
    } else if s[0].observed > t {
    } else {
        lemma_obs_ipos_spec(s.skip(1), t);
        let rs = obs_ipos(s.skip(1), t);
        assert forall|i: int| 0 <= i < rs + 1 implies (#[trigger] s[i]).observed <= t by {
            if i > 0 {
                assert(s.skip(1)[i - 1] == s[i]);
            }
        }
        if rs < s.skip(1).len() {
            assert(s.skip(1)[rs] == s[rs + 1]);
        }
    }
}

pub proof fn lemma_obs_ipos_at(s: Seq<Entry>, t: u64, k: int)
    requires
        0 <= k <= s.len(),
        forall|i: int| 0 <= i < k ==> (#[trigger] s[i]).observed <= t,
        k < s.len() ==> s[k].observed > t,
    ensures
        obs_ipos(s, t) == k,
    decreases s.len(),
{
    if s.len() == 0 {
    } else if k == 0 {
    } else {
        assert(forall|i: int| 0 <= i < s.skip(1).len() ==> s.skip(1)[i] == s[i + 1]);
        lemma_obs_ipos_at(s.skip(1), t, k - 1);
    }
}

/// Inserts an entry after every entry observed no later: a stable insert.
pub open spec fn insert_by_observed(s: Seq<Entry>, e: Entry) -> Seq<Entry> {
    s.insert(obs_ipos(s, e.observed), e)
}

/// Stable sort by observation time: each entry inserted in turn.
pub open spec fn sort_by_observed(s: Seq<Entry>) -> Seq<Entry>
    decreases s.len(),
{
    if s.len() == 0 {
        Seq::empty()
    } else {
        insert_by_observed(sort_by_observed(s.take(s.len() - 1)), s.last())
    }
}

/// Drops each entry equal to its predecessor.
pub open spec fn dedup_adjacent(s: Seq<Entry>) -> Seq<Entry>
    decreases s.len(),
{
    if s.len() <= 1 {
        s
    } else {
        let r = dedup_adjacent(s.take(s.len() - 1));
        if s.last() == s[s.len() - 2] {
            r
        } else {
            r.push(s.last())
        }
    }
}

/// When the last two entries record the same status and both are open,
/// drops the later one: overlapping scrape windows saw one state twice.
pub open spec fn collapse_dup_open(s: Seq<Entry>) -> Seq<Entry> {
    if s.len() >= 2 && s.last().status == s[s.len() - 2].status && s.last().reversal is None && s[s.len()
        - 2].reversal is None {
        s.take(s.len() - 1)
    } else {
        s
    }
}

/// One user's merged timeline.
pub open spec fn merge_entries(a: Seq<Entry>, b: Seq<Entry>) -> Seq<Entry> {
    collapse_dup_open(dedup_adjacent(sort_by_observed(a + b)))
}

/// One row folded into a log: the user's merged timeline replaces or
/// joins the rows.
pub open spec fn merge_step(m: LogView, id: u64, es: Seq<Entry>) -> LogView {
    let j = log_find(m, id);
    if j >= 0 {
        m.update(j, (id, merge_entries(m[j].1, es)))
    } else {
        m.insert(log_ipos(m, id), (id, merge_entries(Seq::empty(), es)))
    }
}

/// The merged log: each row of `rows` folded into `m` in turn.
pub open spec fn merge_rows(m: LogView, rows: LogView) -> LogView
    decreases rows.len(),
{
    if rows.len() == 0 {
        m
    } else {
        let m1 = merge_rows(m, rows.take(rows.len() - 1));
        merge_step(m1, rows.last().0, rows.last().1)
    }
}

pub proof fn lemma_sort_len(s: Seq<Entry>)
    ensures
        sort_by_observed(s).len() == s.len(),
    decreases s.len(),
{
    if s.len() > 0 {
        lemma_sort_len(s.take(s.len() - 1));
        lemma_obs_ipos_spec(sort_by_observed(s.take(s.len() - 1)), s.last().observed);
    }
}

pub proof fn lemma_dedup_nonempty(s: Seq<Entry>)
    requires
        s.len() > 0,
    ensures
        dedup_adjacent(s).len() > 0,
        dedup_adjacent(s).len() <= s.len(),
    decreases s.len(),
{
    if s.len() > 1 {
        lemma_dedup_nonempty(s.take(s.len() - 1));
    }
}

fn entry_eq(a: &Entry, b: &Entry) -> (r: bool)
    ensures
        r == (*a == *b),
{
    let se = match (a.status, b.status) {
        (UserStatus::NotFound, UserStatus::NotFound) => true,
        (UserStatus::Suspended, UserStatus::Suspended) => true,
        _ => false,
    };
    let re = match (a.reversal, b.reversal) {
        (None, None) => true,
        (Some(x), Some(y)) => x == y,
        _ => false,
    };
    let r = se && a.observed == b.observed && re;
    proof {
        if r {
            assert(*a =~= *b);
        }
    }
    r
}

/// Copies a timeline.
fn copy_entries(es: &Vec<Entry>) -> (r: Vec<Entry>)
    ensures
        r@ == es@,
{
    let mut r: Vec<Entry> = Vec::new();
    let mut i: usize = 0;
    while i < es.len()
        invariant
            0 <= i <= es.len(),
            r@ == es@.take(i as int),
        decreases es.len() - i,
    {
        r.push(es[i]);
        i = i + 1;
        proof {
            assert(r@ =~= es@.take(i as int));
        }
    }
    proof {
        assert(es@.take(es@.len() as int) =~= es@);
    }
    r
}

/// Merges one user's timelines, mirroring [`merge_entries`].
#[verifier::rlimit(100)]
fn merge_entries_exec(a: &Vec<Entry>, b: &Vec<Entry>) -> (r: Vec<Entry>)
    ensures
        r@ == merge_entries(a@, b@),
{
    let mut comb = copy_entries(a);
    let mut bb = copy_entries(b);
    comb.append(&mut bb);
    let ghost cv = comb@;
    proof {
        assert(cv == a@ + b@);
    }
    // stable insertion sort by observed
    let mut sorted: Vec<Entry> = Vec::new();
    let mut i: usize = 0;
    proof {
        assert(cv.take(0) =~= Seq::<Entry>::empty());
    }
    while i < comb.len()
        invariant
            0 <= i <= comb@.len(),
            cv == comb@,
            sorted@ == sort_by_observed(cv.take(i as int)),
        decreases comb@.len() - i,
    {
        let e = comb[i];
        let mut k: usize = 0;
        while k < sorted.len() && sorted[k].observed <= e.observed
            invariant
                0 <= k <= sorted@.len(),
                forall|j: int| 0 <= j < k ==> (#[trigger] sorted@[j]).observed <= e.observed,
            decreases sorted@.len() - k,
        {
            k = k + 1;
        }
        proof {
            lemma_obs_ipos_at(sorted@, e.observed, k as int);
        }
        sorted.insert(k, e);
        i = i + 1;
        proof {
            assert(cv.take(i as int).take(i - 1) =~= cv.take(i - 1));
            assert(cv.take(i as int).last() == cv[i - 1]);
            assert(sorted@ =~= sort_by_observed(cv.take(i as int)));
        }
    }
    proof {
        assert(cv.take(cv.len() as int) =~= cv);
    }
    // drop adjacent duplicates
    let ghost sv = sorted@;
    let mut ded: Vec<Entry> = Vec::new();
    let mut k: usize = 0;
    proof {
        assert(sv.take(0) =~= Seq::<Entry>::empty());
    }
    while k < sorted.len()
        invariant
            0 <= k <= sorted@.len(),
            sv == sorted@,
            ded@ == dedup_adjacent(sv.take(k as int)),
        decreases sorted@.len() - k,
    {
        let dup = if k > 0 {
            entry_eq(&sorted[k], &sorted[k - 1])
        } else {
            false
        };
        if !dup {
            ded.push(sorted[k]);
        }
        k = k + 1;
        proof {
            assert(sv.take(k as int).take(k - 1) =~= sv.take(k - 1));
            assert(sv.take(k as int).last() == sv[k - 1]);
            if k >= 2 {
                assert(sv.take(k as int)[k - 2] == sv[k - 2]);
            }
            assert(ded@ =~= dedup_adjacent(sv.take(k as int)));
        }
    }
    proof {
        assert(sv.take(sv.len() as int) =~= sv);
    }
    // collapse a duplicated open tail
    let n = ded.len();
    let collapse = if n >= 2 {
        let st = match (ded[n - 1].status, ded[n - 2].status) {
            (UserStatus::NotFound, UserStatus::NotFound) => true,
            (UserStatus::Suspended, UserStatus::Suspended) => true,
            _ => false,
        };
        st && ded[n - 1].reversal.is_none() && ded[n - 2].reversal.is_none()
    } else {
        false
    };
    if collapse {
        let ghost dv = ded@;
        ded.pop();
        proof {
            assert(ded@ =~= collapse_dup_open(dv));
        }
    } else {
        proof {
            assert(ded@ =~= collapse_dup_open(ded@));
        }
    }
    ded
}

impl Log {
    /// A copy of the log.
    pub fn duplicate(&self) -> (r: Log)
        ensures
            r@ == self@,
    {
        let mut entries: Vec<(u64, Vec<Entry>)> = Vec::new();
        let mut i: usize = 0;
        while i < self.entries.len()
            invariant
                0 <= i <= self.entries.len(),
                self@.len() == self.entries.len(),
                entries@.len() == i,
                forall|j: int|
                    0 <= j < i ==> (#[trigger] entries@[j]).0 == self@[j].0 && entries@[j].1@
                        == self@[j].1,
            decreases self.entries.len() - i,
        {
            let id = self.entries[i].0;
            let es = copy_entries(&self.entries[i].1);
            entries.push((id, es));
            i = i + 1;
        }
        let r = Log { entries };
        proof {
            assert forall|j: int| 0 <= j < r@.len() implies #[trigger] r@[j] == self@[j] by {
                assert(r@[j].0 == self@[j].0 && r@[j].1 == self@[j].1);
            }
            assert(r@ =~= self@);
        }
        r
    }

    /// Folds one user's entries into this log.
    #[verifier::rlimit(100)]
    fn merge_row(&mut self, id: u64, es: &Vec<Entry>)
        requires
            old(self).wf(),
            es@.len() > 0,
        ensures
            final(self).wf(),
            final(self)@ == merge_step(old(self)@, id, es@),
    {
        let ghost before = self@;
        match self.find_index(id) {
            Some(j) => {
                proof {
                    lemma_log_find_spec(before, id);
                    lemma_merge_entries_nonempty(before[j as int].1, es@);
                }
                let merged = merge_entries_exec(&self.entries[j].1, es);
                let old_row = self.entries.remove(j);
                self.entries.insert(j, (id, merged));
                proof {
                    assert(self@ =~~= before.update(
                        j as int,
                        (id, merge_entries(before[j as int].1, es@)),
                    ));
                    assert(final(self).wf());
                }
            },
            None => {
                proof {
                    lemma_log_find_spec(before, id);
                    lemma_log_ipos_spec(before, id);
                    lemma_merge_entries_nonempty(Seq::empty(), es@);
                }
                let ins = self.find_ipos(id);
                let empty_es: Vec<Entry> = Vec::new();
                proof {
                    assert(empty_es@ =~= Seq::<Entry>::empty());
                }
                let merged = merge_entries_exec(&empty_es, es);
                self.entries.insert(ins, (id, merged));
                proof {
                    let ip = ins as int;
                    assert(self@ =~~= before.insert(ip, (id, merge_entries(Seq::empty(), es@))));
                    let v1 = self@;
                    before.insert_ensures(ip, (id, merge_entries(Seq::empty(), es@)));
                    assert forall|a: int, b: int|
                        0 <= a < b < v1.len() implies v1[a].0 < v1[b].0 by {
                        if a < ip && b < ip {
                        } else if a < ip && b == ip {
                            assert(before[a].0 != id);
                        } else if a < ip && b > ip {
                            assert(v1[b] == before[b - 1]);
                        } else if a == ip && b > ip {
                            assert(v1[b] == before[b - 1]);
                        } else if a > ip && b > ip {
                            assert(v1[a] == before[a - 1]);
                            assert(v1[b] == before[b - 1]);
                        }
                    }
                    assert forall|a: int| 0 <= a < v1.len() implies (#[trigger] v1[a]).1.len()
                        > 0 by {
                        if a < ip {
                        } else if a > ip {
                            assert(v1[a] == before[a - 1]);
                        }
                    }
                    assert(final(self).wf());
                }
            },
        }
    }

    /// Combines two logs: per-user concatenation, stable-sorted by
    /// observation time, adjacent duplicates dropped, and a duplicated
    /// open tail collapsed.
    pub fn merge(&self, other: &Log) -> (r: Log)
        requires
            self.wf(),
            other.wf(),
        ensures
            r@ == merge_rows(self@, other@),
            r.wf(),
    {
        let mut r = self.duplicate();
        let ghost m0 = self@;
        let ghost rows = other@;
        let mut i: usize = 0;
        proof {
            assert(rows.take(0) =~= Seq::<(u64, Seq<Entry>)>::empty());
        }
        while i < other.entries.len()
            invariant
                0 <= i <= other.entries.len(),
                rows == other@,
                log_wf(rows),
                rows.len() == other.entries.len(),
                r@ == merge_rows(m0, rows.take(i as int)),
                r.wf(),
            decreases other.entries.len() - i,
        {
            let id = other.entries[i].0;
            let ghost row = rows[i as int];
            proof {
                assert(row.0 == id && row.1 == other.entries@[i as int].1@);
                assert(row.1.len() > 0);
            }
            r.merge_row(id, &other.entries[i].1);
            i = i + 1;
            proof {
                assert(rows.take(i as int).take(i - 1) =~= rows.take(i - 1));
                assert(rows.take(i as int).last() == rows[i - 1]);
                assert(r@ == merge_rows(m0, rows.take(i as int)));
            }
        }
        proof {
            assert(rows.take(rows.len() as int) =~= rows);
        }
        r
    }
}

/// A merged timeline of a non-empty input is non-empty, and merging
/// leaves at most the combined number of entries.
pub proof fn lemma_merge_entries_nonempty(a: Seq<Entry>, b: Seq<Entry>)
    requires
        a.len() + b.len() > 0,
    ensures
        merge_entries(a, b).len() > 0,
{
    lemma_sort_len(a + b);
    lemma_dedup_nonempty(sort_by_observed(a + b));
}


/// Sorting a timeline already in observation order changes nothing.
pub proof fn lemma_sort_of_sorted(es: Seq<Entry>)
    requires
        forall|i: int, j: int|
            0 <= i <= j < es.len() ==> (#[trigger] es[i]).observed <= (#[trigger] es[j]).observed,
    ensures
        sort_by_observed(es) == es,
    decreases es.len(),
{
    if es.len() > 0 {
        let pre = es.take(es.len() - 1);
        assert(forall|i: int| 0 <= i < pre.len() ==> pre[i] == es[i]);
        lemma_sort_of_sorted(pre);
        lemma_obs_ipos_at(pre, es.last().observed, pre.len() as int);
        assert(pre.insert(pre.len() as int, es.last()) =~= es);
    }
}

/// Dropping adjacent duplicates from a timeline without any changes
/// nothing.
pub proof fn lemma_dedup_of_distinct(es: Seq<Entry>)
    requires
        forall|i: int| 0 <= i < es.len() - 1 ==> (#[trigger] es[i]) != es[i + 1],
    ensures
        dedup_adjacent(es) == es,
    decreases es.len(),
{
    if es.len() > 1 {
        let pre = es.take(es.len() - 1);
        assert(forall|i: int| 0 <= i < pre.len() ==> pre[i] == es[i]);
        lemma_dedup_of_distinct(pre);
        assert(es.last() != es[es.len() - 2]);
        assert(pre.push(es.last()) =~= es);
    }
}

/// A valid timeline ascends strictly, holds no duplicates, and is closed
/// everywhere but possibly its last entry.
#[verifier::rlimit(100)]
#[verifier::spinoff_prover]
pub proof fn lemma_valid_shape(es: Seq<Entry>)
    requires
        valid_entries(es),
    ensures
        forall|i: int, j: int|
            0 <= i <= j < es.len() ==> (#[trigger] es[i]).observed <= (#[trigger] es[j]).observed,
        forall|i: int| 0 <= i < es.len() - 1 ==> (#[trigger] es[i]) != es[i + 1],
        es.len() >= 2 ==> es[es.len() - 2].reversal is Some,
{
    assert forall|i: int, j: int|
        0 <= i <= j < es.len() implies (#[trigger] es[i]).observed <= (
    #[trigger] es[j]).observed by {
        lemma_valid_entries_strict(es, i, j);
    }
    assert forall|i: int| 0 <= i < es.len() - 1 implies (#[trigger] es[i]) != es[i + 1] by {
        lemma_valid_entries_strict(es, i, i + 1);
    }
}

/// The unit law of [`merge_entries`]: a valid timeline merged into
/// nothing comes back unchanged. Validity matters: it makes the timeline
/// strictly ordered, free of duplicates, and open at most in its last
/// entry, so none of the merge's collapsing steps can fire.
proof fn lemma_valid_sort_identity(es: Seq<Entry>)
    requires
        valid_entries(es),
    ensures
        sort_by_observed(es) == es,
{
    lemma_valid_shape(es);
    lemma_sort_of_sorted(es);
}

proof fn lemma_valid_dedup_identity(es: Seq<Entry>)
    requires
        valid_entries(es),
    ensures
        dedup_adjacent(es) == es,
{
    lemma_valid_shape(es);
    lemma_dedup_of_distinct(es);
}

proof fn lemma_valid_collapse_identity(es: Seq<Entry>)
    requires
        valid_entries(es),
    ensures
        collapse_dup_open(es) == es,
{
    if es.len() >= 2 {
        assert(es[es.len() - 2].reversal is Some);
    }
}

/// The unit law of [`merge_entries`]: a valid timeline merged into
/// nothing comes back unchanged. Validity matters: it makes the timeline
/// strictly ordered, free of duplicates, and open at most in its last
/// entry, so none of the merge's collapsing steps can fire.
#[verifier::rlimit(100)]
#[verifier::spinoff_prover]
pub proof fn lemma_merge_entries_unit(es: Seq<Entry>)
    requires
        valid_entries(es),
    ensures
        merge_entries(Seq::empty(), es) == es,
{
    assert(Seq::<Entry>::empty() + es =~= es);
    lemma_valid_sort_identity(es);
    lemma_valid_dedup_identity(es);
    lemma_valid_collapse_identity(es);
}

/// In a valid timeline, observation times ascend strictly.
pub proof fn lemma_valid_entries_strict(es: Seq<Entry>, i: int, j: int)
    requires
        valid_entries(es),
        0 <= i <= j < es.len(),
    ensures
        es[i].observed <= es[j].observed,
        i < j ==> es[i].observed < es[j].observed,
    decreases j - i,
{
    if i < j {
        assert(es[i].reversal matches Some(r) && es[i].observed < r && r < es[i + 1].observed);
        lemma_valid_entries_strict(es, i + 1, j);
    }
}

/// No two entries share an observation time.
pub open spec fn distinct_observed(s: Seq<Entry>) -> bool {
    forall|i: int, j: int|
        0 <= i < j < s.len() ==> (#[trigger] s[i]).observed != (#[trigger] s[j]).observed
}

/// Entries in non-decreasing observation order.
pub open spec fn sorted_observed(s: Seq<Entry>) -> bool {
    forall|i: int, j: int|
        0 <= i <= j < s.len() ==> (#[trigger] s[i]).observed <= (#[trigger] s[j]).observed
}

#[verifier::spinoff_prover]
proof fn lemma_sort_multiset(s: Seq<Entry>)
    ensures
        sort_by_observed(s).to_multiset() == s.to_multiset(),
    decreases s.len(),
{
    if s.len() > 0 {
        let pre = s.take(s.len() - 1);
        lemma_sort_multiset(pre);
        let sp = sort_by_observed(pre);
        let e = s.last();
        lemma_obs_ipos_spec(sp, e.observed);
        assert(sort_by_observed(s) == insert_by_observed(sp, e));
        assert(insert_by_observed(sp, e) == sp.insert(obs_ipos(sp, e.observed), e));
        vstd::seq_lib::to_multiset_insert(sp, obs_ipos(sp, e.observed), e);
        vstd::seq_lib::to_multiset_build(pre, e);
        assert(pre.push(e) =~= s);
    } else {
        assert(s =~= Seq::<Entry>::empty());
    }
}

proof fn lemma_sort_sorted(s: Seq<Entry>)
    ensures
        sorted_observed(sort_by_observed(s)),
    decreases s.len(),
{
    if s.len() > 0 {
        let pre = s.take(s.len() - 1);
        lemma_sort_sorted(pre);
        let sp = sort_by_observed(pre);
        let e = s.last();
        lemma_obs_ipos_spec(sp, e.observed);
        let ip = obs_ipos(sp, e.observed);
        let r = sp.insert(ip, e);
        sp.insert_ensures(ip, e);
        assert forall|i: int, j: int|
            0 <= i <= j < r.len() implies (#[trigger] r[i]).observed <= (
        #[trigger] r[j]).observed by {
            if i < ip {
                assert(r[i] == sp[i]);
                assert(sp[i].observed <= e.observed);
            }
            if j < ip {
                assert(r[j] == sp[j]);
            }
            if i > ip {
                assert(r[i] == sp[i - 1]);
            }
            if j > ip {
                assert(r[j] == sp[j - 1]);
                if ip < sp.len() {
                    assert(sp[ip].observed > e.observed);
                    assert(sp[ip].observed <= sp[j - 1].observed);
                }
            }
        }
    }
}

proof fn lemma_sorted_multiset_equal(x: Seq<Entry>, y: Seq<Entry>)
    requires
        sorted_observed(x),
        sorted_observed(y),
        distinct_observed(x),
        x.to_multiset() == y.to_multiset(),
    ensures
        x == y,
    decreases x.len(),
{
    broadcast use vstd::multiset::group_multiset_axioms;

    x.to_multiset_ensures();
    y.to_multiset_ensures();
    assert(x.len() == y.len());
    if x.len() == 0 {
        assert(x =~= y);
    } else {
        let n = x.len() as int;
        assert(y.contains(y.last()));
        assert(x.to_multiset().count(y.last()) > 0);
        assert(x.contains(y.last()));
        let k = choose|k: int| 0 <= k < x.len() && x[k] == y.last();
        assert(x.contains(x.last()));
        assert(y.to_multiset().count(x.last()) > 0);
        assert(y.contains(x.last()));
        let k2 = choose|k2: int| 0 <= k2 < y.len() && y[k2] == x.last();
        assert(y.last().observed <= x.last().observed);
        assert(x.last().observed <= y.last().observed);
        assert(x[k].observed == x[n - 1].observed);
        assert(k == n - 1);
        assert(x.last() == y.last());
        let xp = x.take(n - 1);
        let yp = y.take(n - 1);
        vstd::seq_lib::to_multiset_build(xp, x.last());
        vstd::seq_lib::to_multiset_build(yp, y.last());
        assert(xp.push(x.last()) =~= x);
        assert(yp.push(y.last()) =~= y);
        assert(xp.to_multiset() =~= yp.to_multiset()) by {
            assert(forall|t: Entry|
                #![trigger xp.to_multiset().count(t)]
                xp.to_multiset().insert(x.last()).count(t) == yp.to_multiset().insert(
                    y.last(),
                ).count(t));
        }
        assert(forall|i: int| 0 <= i < n - 1 ==> #[trigger] xp[i] == x[i]);
        assert(forall|i: int| 0 <= i < n - 1 ==> #[trigger] yp[i] == y[i]);
        lemma_sorted_multiset_equal(xp, yp);
        assert(x =~= y);
    }
}

/// Merging two timelines is commutative when no two entries, across both,
/// share an observation time. On a shared time the stable sort keeps the
/// left operand's entry first, and the two orders differ.
pub proof fn lemma_merge_entries_commutes(a: Seq<Entry>, b: Seq<Entry>)
    requires
        distinct_observed(a + b),
    ensures
        merge_entries(a, b) == merge_entries(b, a),
{
    broadcast use vstd::multiset::group_multiset_axioms;

    let s1 = a + b;
    let s2 = b + a;
    vstd::seq_lib::lemma_multiset_commutative(a, b);
    vstd::seq_lib::lemma_multiset_commutative(b, a);
    assert(s1.to_multiset() =~= s2.to_multiset());
    lemma_sort_multiset(s1);
    lemma_sort_multiset(s2);
    lemma_sort_sorted(s1);
    lemma_sort_sorted(s2);
    let t1 = sort_by_observed(s1);
    let t2 = sort_by_observed(s2);
    s1.to_multiset_ensures();
    t1.to_multiset_ensures();
    assert(s1.no_duplicates()) by {
        assert forall|i: int, j: int|
            0 <= i < s1.len() && 0 <= j < s1.len() && i != j implies s1[i] != s1[j] by {
            if i < j {
                assert(s1[i].observed != s1[j].observed);
            } else {
                assert(s1[j].observed != s1[i].observed);
            }
        }
    }
    s1.lemma_multiset_has_no_duplicates();
    t1.lemma_multiset_has_no_duplicates_conv();
    assert(distinct_observed(t1)) by {
        assert forall|i: int, j: int|
            0 <= i < j < t1.len() implies (#[trigger] t1[i]).observed != (
        #[trigger] t1[j]).observed by {
            if t1[i].observed == t1[j].observed {
                assert(t1[i] != t1[j]);
                assert(t1.contains(t1[i]) && t1.contains(t1[j]));
                assert(s1.to_multiset().count(t1[i]) > 0);
                assert(s1.to_multiset().count(t1[j]) > 0);
                assert(s1.contains(t1[i]) && s1.contains(t1[j]));
                let p = choose|p: int| 0 <= p < s1.len() && s1[p] == t1[i];
                let q = choose|q: int| 0 <= q < s1.len() && s1[q] == t1[j];
                assert(p != q);
                if p < q {
                    assert(s1[p].observed != s1[q].observed);
                } else {
                    assert(s1[q].observed != s1[p].observed);
                }
            }
        }
    }
    lemma_sorted_multiset_equal(t1, t2);
}

/// One rendered line without its terminating newline.
pub open spec fn entry_line(id: u64, e: Entry) -> Seq<u8> {
    dec_repr(id) + seq![44u8] + dec_repr(code_of(e.status)) + seq![44u8] + dec_repr(e.observed)
        + seq![44u8] + (match e.reversal {
        None => Seq::<u8>::empty(),
        Some(t) => dec_repr(t),
    })
}

/// The line bodies of one user's entries, in stored order.
pub open spec fn entry_lines(id: u64, es: Seq<Entry>) -> Seq<Seq<u8>>
    decreases es.len(),
{
    if es.len() == 0 {
        Seq::empty()
    } else {
        seq![entry_line(id, es[0])] + entry_lines(id, es.skip(1))
    }
}

/// The line bodies of a whole log, in file order.
pub open spec fn log_lines(m: LogView) -> Seq<Seq<u8>>
    decreases m.len(),
{
    if m.len() == 0 {
        Seq::empty()
    } else {
        entry_lines(m[0].0, m[0].1) + log_lines(m.skip(1))
    }
}

/// Lines each closed by a newline.
spec fn cat_lines(ls: Seq<Seq<u8>>) -> Seq<u8>
    decreases ls.len(),
{
    if ls.len() == 0 {
        Seq::empty()
    } else {
        ls[0] + seq![10u8] + cat_lines(ls.skip(1))
    }
}

/// Fields joined with one separator between neighbours.
spec fn join_fields(fields: Seq<Seq<u8>>, sep: u8) -> Seq<u8>
    decreases fields.len(),
{
    if fields.len() == 0 {
        Seq::empty()
    } else if fields.len() == 1 {
        fields[0]
    } else {
        fields[0] + seq![sep] + join_fields(fields.skip(1), sep)
    }
}

/// The byte never occurs in the string.
spec fn sep_free(s: Seq<u8>, sep: u8) -> bool {
    forall|i: int| 0 <= i < s.len() ==> s[i] != sep
}

/// The byte never occurs in any of the strings.
spec fn all_sep_free(fields: Seq<Seq<u8>>, sep: u8) -> bool {
    forall|k: int| 0 <= k < fields.len() ==> sep_free(#[trigger] fields[k], sep)
}

proof fn lemma_cat_lines_add(a: Seq<Seq<u8>>, b: Seq<Seq<u8>>)
    ensures
        cat_lines(a + b) == cat_lines(a) + cat_lines(b),
    decreases a.len(),
{
    if a.len() == 0 {
        assert(a + b =~= b);
        assert(cat_lines(a) + cat_lines(b) =~= cat_lines(b));
    } else {
        lemma_cat_lines_add(a.skip(1), b);
        assert((a + b).skip(1) =~= a.skip(1) + b);
        assert(cat_lines(a + b) =~= cat_lines(a) + cat_lines(b));
    }
}

proof fn lemma_entry_lines_add(id: u64, a: Seq<Entry>, b: Seq<Entry>)
    ensures
        entry_lines(id, a + b) == entry_lines(id, a) + entry_lines(id, b),
    decreases a.len(),
{
    if a.len() == 0 {
        assert(a + b =~= b);
        assert(entry_lines(id, a) + entry_lines(id, b) =~= entry_lines(id, b));
    } else {
        lemma_entry_lines_add(id, a.skip(1), b);
        assert((a + b).skip(1) =~= a.skip(1) + b);
        assert(entry_lines(id, a + b) =~= entry_lines(id, a) + entry_lines(id, b));
    }
}

proof fn lemma_log_lines_add(a: LogView, b: LogView)
    ensures
        log_lines(a + b) == log_lines(a) + log_lines(b),
    decreases a.len(),
{
    if a.len() == 0 {
        assert(a + b =~= b);
        assert(log_lines(a) + log_lines(b) =~= log_lines(b));
    } else {
        lemma_log_lines_add(a.skip(1), b);
        assert((a + b).skip(1) =~= a.skip(1) + b);
        assert(log_lines(a + b) =~= log_lines(a) + log_lines(b));
    }
}

proof fn lemma_render_entries_lines(id: u64, es: Seq<Entry>)
    ensures
        render_entries(id, es) == cat_lines(entry_lines(id, es)),
    decreases es.len(),
{
    if es.len() > 0 {
        lemma_render_entries_lines(id, es.skip(1));
        assert(entry_lines(id, es).skip(1) =~= entry_lines(id, es.skip(1)));
        assert(render_entry(id, es[0]) =~= entry_line(id, es[0]) + seq![10u8]);
        assert(render_entries(id, es) =~= cat_lines(entry_lines(id, es)));
    }
}

proof fn lemma_render_log_lines(m: LogView)
    ensures
        render_log(m) == cat_lines(log_lines(m)),
    decreases m.len(),
{
    if m.len() > 0 {
        lemma_render_log_lines(m.skip(1));
        lemma_render_entries_lines(m[0].0, m[0].1);
        lemma_cat_lines_add(entry_lines(m[0].0, m[0].1), log_lines(m.skip(1)));
        assert(render_log(m) =~= cat_lines(log_lines(m)));
    }
}

#[verifier::spinoff_prover]
proof fn lemma_cat_join(ls: Seq<Seq<u8>>)
    requires
        ls.len() >= 1,
    ensures
        cat_lines(ls) == join_fields(ls, 10) + seq![10u8],
    decreases ls.len(),
{
    if ls.len() == 1 {
        assert(ls.skip(1) =~= Seq::<Seq<u8>>::empty());
        assert(cat_lines(ls) =~= join_fields(ls, 10) + seq![10u8]);
    } else {
        lemma_cat_join(ls.skip(1));
        assert(cat_lines(ls) == ls[0] + seq![10u8] + cat_lines(ls.skip(1)));
        assert(join_fields(ls, 10) == ls[0] + seq![10u8] + join_fields(ls.skip(1), 10));
        assert(cat_lines(ls) =~= join_fields(ls, 10) + seq![10u8]);
    }
}

proof fn lemma_entry_line_free(id: u64, e: Entry)
    ensures
        sep_free(entry_line(id, e), 10),
{
    lemma_dec_repr_val(id);
    lemma_dec_repr_val(code_of(e.status));
    lemma_dec_repr_val(e.observed);
    if e.reversal is Some {
        lemma_dec_repr_val(e.reversal->0);
    }
}

proof fn lemma_entry_lines_free(id: u64, es: Seq<Entry>)
    ensures
        all_sep_free(entry_lines(id, es), 10),
    decreases es.len(),
{
    if es.len() > 0 {
        lemma_entry_lines_free(id, es.skip(1));
        lemma_entry_line_free(id, es[0]);
        let ls = entry_lines(id, es);
        assert forall|k: int| 0 <= k < ls.len() implies sep_free(#[trigger] ls[k], 10) by {
            if k > 0 {
                assert(ls[k] == entry_lines(id, es.skip(1))[k - 1]);
            }
        }
    }
}

proof fn lemma_log_lines_free(m: LogView)
    ensures
        all_sep_free(log_lines(m), 10),
    decreases m.len(),
{
    if m.len() > 0 {
        lemma_log_lines_free(m.skip(1));
        lemma_entry_lines_free(m[0].0, m[0].1);
        let hd = entry_lines(m[0].0, m[0].1);
        let ls = log_lines(m);
        assert forall|k: int| 0 <= k < ls.len() implies sep_free(#[trigger] ls[k], 10) by {
            if k < hd.len() {
                assert(ls[k] == hd[k]);
            } else {
                assert(ls[k] == log_lines(m.skip(1))[k - hd.len()]);
            }
        }
    }
}

/// Splitting the joined fields at the separator gives the fields back,
/// when none of them holds the separator.
proof fn lemma_split_join(s: Seq<u8>, pos: int, end: int, sep: u8, fields: Seq<Seq<u8>>)
    requires
        0 <= pos <= end <= s.len(),
        fields.len() >= 1,
        all_sep_free(fields, sep),
        s.subrange(pos, end) == join_fields(fields, sep),
    ensures
        split_from(s, pos, end, sep) == fields,
    decreases fields.len(),
{
    let b = fields[0];
    assert(sep_free(b, sep));
    if fields.len() == 1 {
        assert(end - pos == b.len());
        assert forall|i: int| pos <= i < end implies s[i] != sep by {
            assert(s.subrange(pos, end)[i - pos] == s[i]);
            assert(b[i - pos] != sep);
        }
        lemma_find_from_at_none(s, pos, end, sep);
        assert(seq![s.subrange(pos, end)] =~= fields);
    } else {
        let rest = fields.skip(1);
        let jr = join_fields(rest, sep);
        assert(join_fields(fields, sep) == b + seq![sep] + jr);
        assert(end - pos == b.len() + 1 + jr.len());
        let cut = pos + b.len();
        assert forall|i: int| pos <= i < cut implies s[i] != sep by {
            assert(s.subrange(pos, end)[i - pos] == s[i]);
            assert((b + seq![sep] + jr)[i - pos] == b[i - pos]);
        }
        assert(s[cut] == sep) by {
            assert(s.subrange(pos, end)[b.len() as int] == s[cut]);
            assert((b + seq![sep] + jr)[b.len() as int] == sep);
        }
        lemma_find_from_at(s, pos, end, sep, cut);
        assert(split_from(s, pos, end, sep) == seq![s.subrange(pos, cut)] + split_from(
            s,
            cut + 1,
            end,
            sep,
        ));
        assert(s.subrange(pos, cut) =~= b) by {
            assert(forall|i: int|
                0 <= i < b.len() ==> s.subrange(pos, end)[i] == #[trigger] s.subrange(pos, cut)[i]);
            assert(forall|i: int| 0 <= i < b.len() ==> (b + seq![sep] + jr)[i] == #[trigger] b[i]);
        }
        assert(s.subrange(cut + 1, end) =~= jr) by {
            assert(forall|i: int|
                0 <= i < jr.len() ==> #[trigger] s.subrange(cut + 1, end)[i] == s.subrange(
                    pos,
                    end,
                )[i + b.len() + 1]);
            assert(forall|i: int|
                0 <= i < jr.len() ==> (b + seq![sep] + jr)[i + b.len() + 1] == #[trigger] jr[i]);
        }
        assert(all_sep_free(rest, sep)) by {
            assert(forall|k: int| 0 <= k < rest.len() ==> #[trigger] rest[k] == fields[k + 1]);
        }
        lemma_split_join(s, cut + 1, end, sep, rest);
        assert(seq![b] + rest =~= fields);
    }
}

/// Parsing one rendered line gives the entry back.
#[verifier::rlimit(100)]
#[verifier::spinoff_prover]
pub proof fn lemma_parse_entry_line(id: u64, e: Entry)
    ensures
        parse_line(entry_line(id, e)) == Ok::<(u64, Entry), ErrView>((id, e)),
{
    let l = entry_line(id, e);
    let f0 = dec_repr(id);
    let f1 = dec_repr(code_of(e.status));
    let f2 = dec_repr(e.observed);
    let f3 = match e.reversal {
        None => Seq::<u8>::empty(),
        Some(t) => dec_repr(t),
    };
    let fields = seq![f0, f1, f2, f3];
    lemma_dec_repr_val(id);
    lemma_dec_repr_val(code_of(e.status));
    lemma_dec_repr_val(e.observed);
    if e.reversal is Some {
        lemma_dec_repr_val(e.reversal->0);
    }
    assert(join_fields(fields, 44) =~= l) by {
        assert(join_fields(seq![f3], 44) == f3);
        assert(seq![f2, f3].skip(1) =~= seq![f3]);
        assert(join_fields(seq![f2, f3], 44) == f2 + seq![44u8] + f3);
        assert(seq![f1, f2, f3].skip(1) =~= seq![f2, f3]);
        assert(join_fields(seq![f1, f2, f3], 44) == f1 + seq![44u8] + (f2 + seq![44u8] + f3));
        assert(fields.skip(1) =~= seq![f1, f2, f3]);
        assert(join_fields(fields, 44) == f0 + seq![44u8] + (f1 + seq![44u8] + (f2 + seq![44u8]
            + f3)));
    }
    assert(all_sep_free(fields, 44)) by {
        assert(fields[0] == f0 && fields[1] == f1 && fields[2] == f2 && fields[3] == f3);
        assert(sep_free(f0, 44));
        assert(sep_free(f1, 44));
        assert(sep_free(f2, 44));
        assert(sep_free(f3, 44));
        assert(forall|k: int| 0 <= k < 4 ==> #[trigger] fields[k] == f0 || fields[k] == f1
            || fields[k] == f2 || fields[k] == f3);
    }
    assert(l.subrange(0, l.len() as int) =~= l);
    lemma_split_join(l, 0, l.len() as int, 44, fields);
    let fs = split_from(l, 0, l.len() as int, 44);
    assert(fs[0] == f0 && fs[1] == f1 && fs[2] == f2 && fs[3] == f3);
    match e.reversal {
        None => {
            assert(parse_line(l) == Ok::<(u64, Entry), ErrView>((id, e)) ) by {
                assert(Entry { status: e.status, observed: e.observed, reversal: None } =~= e);
            }
        },
        Some(t) => {
            assert(f3.len() > 0);
            assert(parse_line(l) == Ok::<(u64, Entry), ErrView>((id, e))) by {
                assert(Entry { status: e.status, observed: e.observed, reversal: Some(t) } =~= e);
            }
        },
    }
}

/// Reading the rendered lines of a well-formed log rebuilds it.
proof fn lemma_read_log_lines(m: LogView)
    requires
        log_wf(m),
    ensures
        read_lines(log_lines(m)) == Ok::<LogView, ErrView>(m),
    decreases m.len(), (if m.len() > 0 { m.last().1.len() } else { 0 }),
{
    if m.len() == 0 {
        assert(log_lines(m) =~= Seq::<Seq<u8>>::empty());
        assert(m =~= Seq::<(u64, Seq<Entry>)>::empty());
    } else {
        let n = m.len() as int;
        let id = m.last().0;
        let es = m.last().1;
        let e = es.last();
        let line = entry_line(id, e);
        assert(m =~= m.take(n - 1) + seq![(id, es)]);
        lemma_log_lines_add(m.take(n - 1), seq![(id, es)]);
        assert(log_lines(seq![(id, es)]) =~= entry_lines(id, es)) by {
            assert(seq![(id, es)].skip(1) =~= Seq::<(u64, Seq<Entry>)>::empty());
            assert(log_lines(Seq::<(u64, Seq<Entry>)>::empty()) == Seq::<Seq<u8>>::empty());
            assert(log_lines(seq![(id, es)]) == entry_lines(id, es) + Seq::<Seq<u8>>::empty());
        }
        let es2 = es.take(es.len() - 1);
        assert(es =~= es2 + seq![e]);
        lemma_entry_lines_add(id, es2, seq![e]);
        assert(entry_lines(id, seq![e]) =~= seq![line]) by {
            assert(seq![e].skip(1) =~= Seq::<Entry>::empty());
            assert(entry_lines(id, Seq::<Entry>::empty()) == Seq::<Seq<u8>>::empty());
            assert(entry_lines(id, seq![e]) == seq![entry_line(id, e)] + Seq::<Seq<u8>>::empty());
        }
        let m2: LogView = if es.len() == 1 {
            m.take(n - 1)
        } else {
            m.update(n - 1, (id, es2))
        };
        assert(log_wf(m2)) by {
            assert(forall|i: int| 0 <= i < n - 1 ==> m2[i] == m[i]);
            if es.len() > 1 {
                assert(m2[n - 1].0 == m[n - 1].0);
                assert(m2[n - 1].1.len() == es.len() - 1);
            }
        }
        assert(log_lines(m) == log_lines(m2).push(line)) by {
            if es.len() == 1 {
                assert(entry_lines(id, es2) =~= Seq::<Seq<u8>>::empty());
                assert(entry_lines(id, es) =~= seq![line]);
                assert(log_lines(m) =~= log_lines(m2).push(line));
            } else {
                assert(m2 =~= m.take(n - 1) + seq![(id, es2)]);
                lemma_log_lines_add(m.take(n - 1), seq![(id, es2)]);
                assert(log_lines(seq![(id, es2)]) =~= entry_lines(id, es2)) by {
                    assert(seq![(id, es2)].skip(1) =~= Seq::<(u64, Seq<Entry>)>::empty());
                    assert(log_lines(Seq::<(u64, Seq<Entry>)>::empty())
                        == Seq::<Seq<u8>>::empty());
                    assert(log_lines(seq![(id, es2)]) == entry_lines(id, es2)
                        + Seq::<Seq<u8>>::empty());
                }
                assert(log_lines(m) =~= log_lines(m2).push(line));
            }
        }
        lemma_read_log_lines(m2);
        let ls = log_lines(m);
        assert(ls.take(ls.len() - 1) =~= log_lines(m2));
        assert(ls.last() == line);
        lemma_parse_entry_line(id, e);
        assert(read_lines(ls) == Ok::<LogView, ErrView>(log_insert(m2, id, e)));
        assert(log_insert(m2, id, e) == m) by {
            if es.len() == 1 {
                assert(forall|i: int| 0 <= i < m2.len() ==> (#[trigger] m2[i]).0 != id) by {
                    assert(forall|i: int| 0 <= i < n - 1 ==> (#[trigger] m[i]).0 < id);
                }
                lemma_log_find_none(m2, id);
                lemma_log_ipos_at(m2, id, n - 1);
                assert(seq![e] =~= es);
                assert(m2.insert(n - 1, (id, seq![e])) =~= m);
            } else {
                assert(forall|i: int| 0 <= i < n - 1 ==> (#[trigger] m2[i]).0 != id) by {
                    assert(forall|i: int| 0 <= i < n - 1 ==> (#[trigger] m[i]).0 < id);
                }
                lemma_log_find_at(m2, id, n - 1);
                assert(es2.push(e) =~= es);
                assert(m2.update(n - 1, (id, es2.push(e))) =~= m);
            }
        }
    }
}

/// The serialization round trip: rendering a well-formed log and reading
/// the bytes back yields the same log, row for row and entry for entry.
pub proof fn lemma_log_round_trip(m: LogView)
    requires
        log_wf(m),
    ensures
        read_lines(split_lines(render_log(m))) == Ok::<LogView, ErrView>(m),
{
    lemma_render_log_lines(m);
    lemma_read_log_lines(m);
    let ls = log_lines(m);
    if m.len() == 0 {
        assert(ls =~= Seq::<Seq<u8>>::empty());
        assert(render_log(m).len() == 0);
    } else {
        assert(ls.len() >= 1) by {
            assert(m[0].1.len() > 0);
            assert(entry_lines(m[0].0, m[0].1).len() >= 1);
        }
        lemma_cat_join(ls);
        let s = render_log(m);
        assert(s.len() > 0 && s.last() == 10);
        assert(s.subrange(0, s.len() - 1) =~= join_fields(ls, 10));
        lemma_log_lines_free(m);
        lemma_split_join(s, 0, s.len() - 1, 10, ls);
        assert(split_lines(s) == ls);
    }
}

} // verus!
