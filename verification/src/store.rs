//! The profile archive: an ordered store of profile observations keyed by
//! user id and lowercased screen name.
//!
//! One cell is kept per (id, handle) pair. Overlapping writes to a cell are
//! collapsed by an associative merge that keeps the earliest observation
//! time and the payload with the latest snapshot, the same reduction that
//! [`merge_values`] applies to raw value bytes.

use vstd::prelude::*;
use crate::codec::{be_val_8, u64_be};
use crate::profile::{
    clone_profile, copy_bytes, enc_profile, encode, lemma_rd_profile_complete,
    lemma_rd_profile_sound, parse_profile, rd_profile, wf_profile, Profile, ProfileView,
};

verus! {

/// ASCII lowercasing of one byte.
pub open spec fn lower_byte(b: u8) -> u8 {
    if 65 <= b && b <= 90 {
        (b + 32) as u8
    } else {
        b
    }
}

/// ASCII lowercasing of a byte string; handles are case-insensitive for
/// keying, so renames differing only in case do not create new cells.
pub open spec fn lower(s: Seq<u8>) -> Seq<u8> {
    s.map_values(|b: u8| lower_byte(b))
}

/// Lowercases the ASCII letters of a byte string.
pub fn lower_bytes(v: &Vec<u8>) -> (r: Vec<u8>)
    ensures
        r@ == lower(v@),
{
    let mut r: Vec<u8> = Vec::new();
    let mut i: usize = 0;
    while i < v.len()
        invariant
            0 <= i <= v.len(),
            r@.len() == i,
            forall|j: int| 0 <= j < i ==> r@[j] == lower_byte(v@[j]),
        decreases v.len() - i,
    {
        let b = v[i];
        if 65 <= b && b <= 90 {
            r.push(b + 32);
        } else {
            r.push(b);
        }
        i = i + 1;
    }
    proof {
        assert(r@ =~= lower(v@));
    }
    r
}

/// Compares two byte strings for equality of contents.
pub fn bytes_eq(a: &Vec<u8>, b: &Vec<u8>) -> (r: bool)
    ensures
        r == (a@ == b@),
{
    if a.len() != b.len() {
        return false;
    }
    let mut i: usize = 0;
    while i < a.len()
        invariant
            0 <= i <= a.len(),
            a@.len() == b@.len(),
            forall|j: int| 0 <= j < i ==> a@[j] == b@[j],
        decreases a.len() - i,
    {
        if a[i] != b[i] {
            return false;
        }
        i = i + 1;
    }
    proof {
        assert(a@ =~= b@);
    }
    true
}

/// Strict lexicographic order on byte strings: a proper prefix precedes
/// its extensions, otherwise the first differing byte decides.
pub open spec fn bytes_lt(a: Seq<u8>, b: Seq<u8>) -> bool
    decreases a.len(),
{
    if b.len() == 0 {
        false
    } else if a.len() == 0 {
        true
    } else if a[0] < b[0] {
        true
    } else if a[0] > b[0] {
        false
    } else {
        bytes_lt(a.skip(1), b.skip(1))
    }
}

/// The lexicographic order is a strict total order: any two byte strings
/// are equal or ordered one way, never both.
pub proof fn lemma_bytes_lt_props(a: Seq<u8>, b: Seq<u8>)
    ensures
        a == b || bytes_lt(a, b) || bytes_lt(b, a),
        bytes_lt(a, b) ==> !bytes_lt(b, a),
        bytes_lt(a, b) ==> a != b,
    decreases a.len(),
{
    if a.len() == 0 && b.len() == 0 {
        assert(a =~= b);
    } else if a.len() > 0 && b.len() > 0 && a[0] == b[0] {
        lemma_bytes_lt_props(a.skip(1), b.skip(1));
        if a.skip(1) == b.skip(1) {
            assert(a =~= b) by {
                assert(forall|i: int| 1 <= i < a.len() ==> a[i] == a.skip(1)[i - 1]);
                assert(forall|i: int| 1 <= i < b.len() ==> b[i] == b.skip(1)[i - 1]);
            }
        }
        if bytes_lt(a, b) && a == b {
            assert(a.skip(1) == b.skip(1));
        }
    }
}

/// The lexicographic order is transitive.
pub proof fn lemma_bytes_lt_trans(a: Seq<u8>, b: Seq<u8>, c: Seq<u8>)
    requires
        bytes_lt(a, b),
        bytes_lt(b, c),
    ensures
        bytes_lt(a, c),
    decreases a.len(),
{
    if a.len() == 0 {
    } else {
        if a[0] == b[0] && b[0] == c[0] {
            lemma_bytes_lt_trans(a.skip(1), b.skip(1), c.skip(1));
        }
    }
}

/// A shared prefix does not decide the order: comparison continues on the
/// remainders.
pub proof fn lemma_bytes_lt_skip(a: Seq<u8>, b: Seq<u8>, i: int)
    requires
        0 <= i <= a.len(),
        i <= b.len(),
        forall|j: int| 0 <= j < i ==> a[j] == b[j],
    ensures
        bytes_lt(a, b) == bytes_lt(a.skip(i), b.skip(i)),
    decreases i,
{
    if i > 0 {
        assert(a[0] == b[0]);
        assert(bytes_lt(a, b) == bytes_lt(a.skip(1), b.skip(1)));
        assert(forall|j: int| 0 <= j < i - 1 ==> a.skip(1)[j] == b.skip(1)[j]);
        lemma_bytes_lt_skip(a.skip(1), b.skip(1), i - 1);
        assert(a.skip(1).skip(i - 1) =~= a.skip(i));
        assert(b.skip(1).skip(i - 1) =~= b.skip(i));
    } else {
        assert(a.skip(0) =~= a);
        assert(b.skip(0) =~= b);
    }
}

/// Compares two byte strings lexicographically.
pub fn bytes_less(a: &Vec<u8>, b: &Vec<u8>) -> (r: bool)
    ensures
        r == bytes_lt(a@, b@),
{
    let mut i: usize = 0;
    while i < a.len() && i < b.len()
        invariant
            0 <= i <= a.len(),
            i <= b.len(),
            forall|j: int| 0 <= j < i ==> a@[j] == b@[j],
        decreases a.len() - i,
    {
        if a[i] < b[i] {
            proof {
                lemma_bytes_lt_skip(a@, b@, i as int);
                assert(a@.skip(i as int)[0] == a@[i as int]);
                assert(b@.skip(i as int)[0] == b@[i as int]);
            }
            return true;
        }
        if a[i] > b[i] {
            proof {
                lemma_bytes_lt_skip(a@, b@, i as int);
                assert(a@.skip(i as int)[0] == a@[i as int]);
                assert(b@.skip(i as int)[0] == b@[i as int]);
            }
            return false;
        }
        i = i + 1;
    }
    proof {
        lemma_bytes_lt_skip(a@, b@, i as int);
    }
    a.len() < b.len()
}

/// One cell of the archive: a key pair and its collapsed observation.
pub struct StoreCell {
    pub id: u64,
    pub handle: Vec<u8>,
    pub first_observed: u64,
    pub profile: Profile,
}

/// Mathematical image of a [`StoreCell`].
#[verifier::ext_equal]
pub struct CellView {
    pub id: u64,
    pub handle: Seq<u8>,
    pub first_observed: u64,
    pub profile: ProfileView,
}

impl DeepView for StoreCell {
    type V = CellView;

    open spec fn deep_view(&self) -> CellView {
        CellView {
            id: self.id,
            handle: self.handle@,
            first_observed: self.first_observed,
            profile: self.profile.deep_view(),
        }
    }
}

/// A cell is keyed consistently: its payload carries the same id and its
/// handle is the lowercased payload screen name.
pub open spec fn cell_wf(c: CellView) -> bool {
    c.profile.id == c.id && lower(c.profile.screen_name) == c.handle && wf_profile(c.profile)
}

/// Strict order on store keys: ascending id, then lexicographically
/// ascending handle, the layout a big-endian id prefixed key gives.
pub open spec fn key_lt(id1: u64, h1: Seq<u8>, id2: u64, h2: Seq<u8>) -> bool {
    id1 < id2 || (id1 == id2 && bytes_lt(h1, h2))
}

/// Cells are sorted strictly ascending by (id, handle) key, so one cell
/// per pair, each keyed consistently.
pub open spec fn store_wf(cells: Seq<CellView>) -> bool {
    &&& forall|i: int, j: int| 0 <= i < j < cells.len() ==> cells[i].id <= cells[j].id
    &&& forall|i: int, j: int|
        0 <= i < j < cells.len() && #[trigger] cells[i].id == #[trigger] cells[j].id ==> bytes_lt(
            cells[i].handle,
            cells[j].handle,
        )
    &&& forall|i: int, j: int|
        0 <= i < j < cells.len() ==> !(cells[i].id == cells[j].id && cells[i].handle
            == cells[j].handle)
    &&& forall|i: int| 0 <= i < cells.len() ==> cell_wf(#[trigger] cells[i])
}

/// Index of the cell with the given key, or -1.
pub open spec fn find_cell(cells: Seq<CellView>, id: u64, handle: Seq<u8>) -> int
    decreases cells.len(),
{
    if cells.len() == 0 {
        -1
    } else if cells[0].id == id && cells[0].handle == handle {
        0
    } else {
        let r = find_cell(cells.skip(1), id, handle);
        if r == -1 {
            -1
        } else {
            r + 1
        }
    }
}

/// Index of the first cell whose key exceeds `(id, handle)`, or the
/// length.
pub open spec fn insert_pos(cells: Seq<CellView>, id: u64, handle: Seq<u8>) -> int
    decreases cells.len(),
{
    if cells.len() == 0 {
        0
    } else if key_lt(id, handle, cells[0].id, cells[0].handle) {
        0
    } else {
        1 + insert_pos(cells.skip(1), id, handle)
    }
}

pub proof fn lemma_find_cell_spec(cells: Seq<CellView>, id: u64, handle: Seq<u8>)
    ensures
        ({
            let r = find_cell(cells, id, handle);
            &&& r == -1 ==> forall|i: int|
                0 <= i < cells.len() ==> !(#[trigger] cells[i].id == id && cells[i].handle
                    == handle)
            &&& r != -1 ==> 0 <= r < cells.len() && cells[r].id == id && cells[r].handle == handle
                && (forall|i: int|
                0 <= i < r ==> !(#[trigger] cells[i].id == id && cells[i].handle == handle))
        }),
    decreases cells.len(),
{
    if cells.len() == 0 {
    } else if cells[0].id == id && cells[0].handle == handle {
    } else {
        lemma_find_cell_spec(cells.skip(1), id, handle);
        let rs = find_cell(cells.skip(1), id, handle);
        let r = find_cell(cells, id, handle);
        if rs == -1 {
            assert forall|i: int|
                0 <= i < cells.len() implies !(#[trigger] cells[i].id == id && cells[i].handle
                == handle) by {
                if i > 0 {
                    assert(cells.skip(1)[i - 1] == cells[i]);
                }
            }
        } else {
            assert(cells.skip(1)[rs] == cells[rs + 1]);
            assert forall|i: int|
                0 <= i < r implies !(#[trigger] cells[i].id == id && cells[i].handle == handle) by {
                if i > 0 {
                    assert(cells.skip(1)[i - 1] == cells[i]);
                }
            }
        }
    }
}

pub proof fn lemma_find_cell_at(cells: Seq<CellView>, id: u64, handle: Seq<u8>, j: int)
    requires
        0 <= j < cells.len(),
        cells[j].id == id,
        cells[j].handle == handle,
        forall|i: int| 0 <= i < j ==> !(#[trigger] cells[i].id == id && cells[i].handle == handle),
    ensures
        find_cell(cells, id, handle) == j,
    decreases cells.len(),
{
    if j == 0 {
    } else {
        assert(forall|i: int| 0 <= i < cells.skip(1).len() ==> cells.skip(1)[i] == cells[i + 1]);
        lemma_find_cell_at(cells.skip(1), id, handle, j - 1);
    }
}

pub proof fn lemma_find_cell_none(cells: Seq<CellView>, id: u64, handle: Seq<u8>)
    requires
        forall|i: int|
            0 <= i < cells.len() ==> !(#[trigger] cells[i].id == id && cells[i].handle == handle),
    ensures
        find_cell(cells, id, handle) == -1,
    decreases cells.len(),
{
    if cells.len() == 0 {
    } else {
        assert(forall|i: int| 0 <= i < cells.skip(1).len() ==> cells.skip(1)[i] == cells[i + 1]);
        lemma_find_cell_none(cells.skip(1), id, handle);
    }
}

pub proof fn lemma_insert_pos_spec(cells: Seq<CellView>, id: u64, handle: Seq<u8>)
    ensures
        ({
            let r = insert_pos(cells, id, handle);
            &&& 0 <= r <= cells.len()
            &&& forall|i: int|
                0 <= i < r ==> !key_lt(id, handle, (#[trigger] cells[i]).id, cells[i].handle)
            &&& r < cells.len() ==> key_lt(id, handle, cells[r].id, cells[r].handle)
        }),
    decreases cells.len(),
{
    if cells.len() == 0 {
    } else if key_lt(id, handle, cells[0].id, cells[0].handle) {
    } else {
        lemma_insert_pos_spec(cells.skip(1), id, handle);
        let rs = insert_pos(cells.skip(1), id, handle);
        assert forall|i: int|
            0 <= i < rs + 1 implies !key_lt(id, handle, (#[trigger] cells[i]).id, cells[i].handle) by {
            if i > 0 {
                assert(cells.skip(1)[i - 1] == cells[i]);
            }
        }
        if rs < cells.skip(1).len() {
            assert(cells.skip(1)[rs] == cells[rs + 1]);
        }
    }
}

pub proof fn lemma_insert_pos_at(cells: Seq<CellView>, id: u64, handle: Seq<u8>, k: int)
    requires
        0 <= k <= cells.len(),
        forall|i: int|
            0 <= i < k ==> !key_lt(id, handle, (#[trigger] cells[i]).id, cells[i].handle),
        k < cells.len() ==> key_lt(id, handle, cells[k].id, cells[k].handle),
    ensures
        insert_pos(cells, id, handle) == k,
    decreases cells.len(),
{
    if cells.len() == 0 {
    } else if k == 0 {
    } else {
        assert(forall|i: int| 0 <= i < cells.skip(1).len() ==> cells.skip(1)[i] == cells[i + 1]);
        lemma_insert_pos_at(cells.skip(1), id, handle, k - 1);
    }
}

/// The cell left after collapsing an incoming observation into an existing
/// cell: earliest first-observed, latest snapshot, and on a snapshot tie
/// the value already present.
pub open spec fn merged_cell(c: CellView, now: u64, p: ProfileView) -> CellView {
    CellView {
        id: c.id,
        handle: c.handle,
        first_observed: if now < c.first_observed {
            now
        } else {
            c.first_observed
        },
        profile: if p.snapshot > c.profile.snapshot {
            p
        } else {
            c.profile
        },
    }
}

/// The cell created for a key seen for the first time.
pub open spec fn new_cell(p: ProfileView, now: u64) -> CellView {
    CellView { id: p.id, handle: lower(p.screen_name), first_observed: now, profile: p }
}

/// The whole store after one upsert.
pub open spec fn store_after_update(cells: Seq<CellView>, p: ProfileView, now: u64) -> Seq<
    CellView,
> {
    let j = find_cell(cells, p.id, lower(p.screen_name));
    if j >= 0 {
        cells.update(j, merged_cell(cells[j], now, p))
    } else {
        cells.insert(insert_pos(cells, p.id, lower(p.screen_name)), new_cell(p, now))
    }
}

/// The archive.
pub struct ProfileStore {
    cells: Vec<StoreCell>,
}

impl View for ProfileStore {
    type V = Seq<CellView>;

    closed spec fn view(&self) -> Seq<CellView> {
        self.cells.deep_view()
    }
}

impl ProfileStore {
    pub open spec fn wf(&self) -> bool {
        store_wf(self@)
    }


    /// Creates an empty archive.
    pub fn new() -> (r: ProfileStore)
        ensures
            r.wf(),
            r@ == Seq::<CellView>::empty(),
    {
        let r = ProfileStore { cells: Vec::new() };
        proof {
            assert(r@ =~= Seq::<CellView>::empty());
        }
        r
    }

    /// Number of cells held; exact for this store.
    pub fn estimate_key_count(&self) -> (r: usize)
        ensures
            r == self@.len(),
    {
        self.cells.len()
    }

    /// Index of the cell with the given key, if present.
    fn find_index(&self, id: u64, handle: &Vec<u8>) -> (r: Option<usize>)
        ensures
            r is None ==> find_cell(self@, id, handle@) == -1,
            r matches Some(j) ==> find_cell(self@, id, handle@) == j,
    {
        let mut i: usize = 0;
        while i < self.cells.len()
            invariant
                0 <= i <= self.cells.len(),
                self@.len() == self.cells.len(),
                forall|k: int|
                    0 <= k < i ==> !(#[trigger] self@[k].id == id && self@[k].handle == handle@),
            decreases self.cells.len() - i,
        {
            if self.cells[i].id == id && bytes_eq(&self.cells[i].handle, handle) {
                proof {
                    assert(self@[i as int].id == id && self@[i as int].handle == handle@);
                    lemma_find_cell_at(self@, id, handle@, i as int);
                }
                return Some(i);
            }
            i = i + 1;
        }
        proof {
            lemma_find_cell_none(self@, id, handle@);
        }
        None
    }

    /// Index at which a cell with this key is inserted: before the first
    /// cell whose (id, handle) key is greater.
    fn find_insert(&self, id: u64, handle: &Vec<u8>) -> (r: usize)
        ensures
            r == insert_pos(self@, id, handle@),
            r <= self.cells.len(),
    {
        let mut i: usize = 0;
        while i < self.cells.len()
            invariant
                0 <= i <= self.cells.len(),
                self@.len() == self.cells.len(),
                forall|k: int|
                    0 <= k < i ==> !key_lt(id, handle@, (#[trigger] self@[k]).id, self@[k].handle),
            decreases self.cells.len() - i,
        {
            let greater = if self.cells[i].id > id {
                true
            } else if self.cells[i].id == id {
                bytes_less(handle, &self.cells[i].handle)
            } else {
                false
            };
            if greater {
                proof {
                    lemma_insert_pos_at(self@, id, handle@, i as int);
                }
                return i;
            }
            i = i + 1;
        }
        proof {
            lemma_insert_pos_at(self@, id, handle@, self@.len() as int);
        }
        self.cells.len()
    }

    /// Upserts one observation: a new cell for a new (id, lowercased
    /// handle) key, otherwise the merge of the incoming observation into
    /// the existing cell.
    ///
    /// `now` is the observation time recorded as the cell's first-observed
    /// candidate; callers stamp it with the profile's snapshot second, so
    /// a cell's first-observed is the earliest snapshot written for its
    /// key.
    #[verifier::rlimit(100)]
    pub fn update(&mut self, profile: Profile, now: u64)
        requires
            old(self).wf(),
            wf_profile(profile.deep_view()),
        ensures
            final(self).wf(),
            final(self)@ == store_after_update(old(self)@, profile.deep_view(), now),
    {
        let ghost v0 = self@;
        let ghost pv = profile.deep_view();
        let handle = lower_bytes(&profile.screen_name);
        let id = profile.id;
        match self.find_index(id, &handle) {
            Some(j) => {
                let ghost jj = j as int;
                proof {
                    lemma_find_cell_spec(v0, id, handle@);
                }
                let oldc = self.cells.remove(j);
                let fo = if now < oldc.first_observed {
                    now
                } else {
                    oldc.first_observed
                };
                let prof = if profile.snapshot > oldc.profile.snapshot {
                    profile
                } else {
                    oldc.profile
                };
                let newc = StoreCell { id: oldc.id, handle: oldc.handle, first_observed: fo, profile: prof };
                proof {
                    assert(newc.deep_view() =~= merged_cell(v0[jj], now, pv));
                }
                self.cells.insert(j, newc);
                proof {
                    assert(self@ =~~= v0.update(jj, merged_cell(v0[jj], now, pv)));
                    let v1 = self@;
                    assert(forall|i: int|
                        0 <= i < v1.len() ==> (#[trigger] v1[i]).id == v0[i].id && v1[i].handle
                            == v0[i].handle);
                    assert forall|i: int| 0 <= i < v1.len() implies cell_wf(#[trigger] v1[i]) by {
                        assert(cell_wf(v0[i]));
                    }
                    assert(final(self).wf());
                }
            },
            None => {
                proof {
                    lemma_find_cell_spec(v0, id, handle@);
                }
                let ins = self.find_insert(id, &handle);
                let ghost ip = ins as int;
                let newc = StoreCell { id, handle, first_observed: now, profile };
                self.cells.insert(ins, newc);
                proof {
                    lemma_insert_pos_spec(v0, id, handle@);
                    assert forall|i: int|
                        0 <= i < ip implies key_lt(
                        (#[trigger] v0[i]).id,
                        v0[i].handle,
                        id,
                        handle@,
                    ) by {
                        assert(!key_lt(id, handle@, v0[i].id, v0[i].handle));
                        assert(!(v0[i].id == id && v0[i].handle == handle@));
                        if v0[i].id == id {
                            lemma_bytes_lt_props(v0[i].handle, handle@);
                        }
                    }
                    assert forall|j: int|
                        ip <= j < v0.len() implies key_lt(
                        id,
                        handle@,
                        (#[trigger] v0[j]).id,
                        v0[j].handle,
                    ) by {
                        if j > ip {
                            assert(v0[ip].id <= v0[j].id);
                            if id == v0[ip].id && v0[ip].id == v0[j].id {
                                assert(bytes_lt(v0[ip].handle, v0[j].handle));
                                lemma_bytes_lt_trans(handle@, v0[ip].handle, v0[j].handle);
                            }
                        }
                    }
                    assert(newc.deep_view() =~= new_cell(pv, now));
                    assert(self@ =~~= v0.insert(ip, new_cell(pv, now)));
                    let v1 = self@;
                    v0.insert_ensures(ip, new_cell(pv, now));
                    assert forall|i: int, j: int|
                        0 <= i < j < v1.len() implies v1[i].id <= v1[j].id by {
                        if i < ip && j < ip {
                        } else if i < ip && j == ip {
                        } else if i < ip && j > ip {
                            assert(v1[j] == v0[j - 1]);
                        } else if i == ip && j > ip {
                            assert(v1[j] == v0[j - 1]);
                        } else if i > ip && j > ip {
                            assert(v1[i] == v0[i - 1]);
                            assert(v1[j] == v0[j - 1]);
                        }
                    }
                    assert forall|i: int, j: int|
                        0 <= i < j < v1.len() && #[trigger] v1[i].id == #[trigger] v1[j].id
                        implies bytes_lt(v1[i].handle, v1[j].handle) by {
                        if i < ip && j < ip {
                        } else if i < ip && j == ip {
                            assert(key_lt(v0[i].id, v0[i].handle, id, handle@));
                        } else if i < ip && j > ip {
                            assert(v1[j] == v0[j - 1]);
                        } else if i == ip && j > ip {
                            assert(v1[j] == v0[j - 1]);
                            assert(key_lt(id, handle@, v0[j - 1].id, v0[j - 1].handle));
                        } else if i > ip && j > ip {
                            assert(v1[i] == v0[i - 1]);
                            assert(v1[j] == v0[j - 1]);
                        }
                    }
                    assert forall|i: int, j: int|
                        0 <= i < j < v1.len() implies !(v1[i].id == v1[j].id && v1[i].handle
                        == v1[j].handle) by {
                        if i < ip && j < ip {
                        } else if i < ip && j == ip {
                            assert(!(v0[i].id == id && v0[i].handle == handle@));
                        } else if i < ip && j > ip {
                            assert(v1[j] == v0[j - 1]);
                        } else if i == ip && j > ip {
                            assert(v1[j] == v0[j - 1]);
                            assert(!(v0[j - 1].id == id && v0[j - 1].handle == handle@));
                        } else if i > ip && j > ip {
                            assert(v1[i] == v0[i - 1]);
                            assert(v1[j] == v0[j - 1]);
                        }
                    }
                    assert forall|i: int| 0 <= i < v1.len() implies cell_wf(#[trigger] v1[i]) by {
                        if i < ip {
                            assert(cell_wf(v0[i]));
                        } else if i > ip {
                            assert(v1[i] == v0[i - 1]);
                            assert(cell_wf(v0[i - 1]));
                        }
                    }
                    assert(final(self).wf());
                }
            },
        }
    }
}


/// The (first_observed, profile) payloads of the cells with this id, in
/// cell order.
pub open spec fn payloads_of(cells: Seq<CellView>, id: u64) -> Seq<(u64, ProfileView)>
    decreases cells.len(),
{
    if cells.len() == 0 {
        Seq::empty()
    } else {
        let rest = payloads_of(cells.skip(1), id);
        if cells[0].id == id {
            seq![(cells[0].first_observed, cells[0].profile)] + rest
        } else {
            rest
        }
    }
}

pub proof fn lemma_payloads_add(a: Seq<CellView>, b: Seq<CellView>, id: u64)
    ensures
        payloads_of(a + b, id) == payloads_of(a, id) + payloads_of(b, id),
    decreases a.len(),
{
    if a.len() == 0 {
        assert(a + b =~= b);
        assert(payloads_of(a, id) + payloads_of(b, id) =~= payloads_of(b, id));
    } else {
        lemma_payloads_add(a.skip(1), b, id);
        assert((a + b).skip(1) =~= a.skip(1) + b);
        assert(payloads_of(a + b, id) =~= payloads_of(a, id) + payloads_of(b, id));
    }
}

/// Every payload of an id-consistent store carries that id.
#[verifier::spinoff_prover]
pub proof fn lemma_payloads_elements(cells: Seq<CellView>, id: u64)
    requires
        forall|i: int| 0 <= i < cells.len() ==> cell_wf(#[trigger] cells[i]),
    ensures
        forall|k: int|
            0 <= k < payloads_of(cells, id).len() ==> #[trigger] payloads_of(cells, id)[k].1.id
                == id && wf_profile(payloads_of(cells, id)[k].1),
    decreases cells.len(),
{
    if cells.len() == 0 {
    } else {
        assert(forall|i: int| 0 <= i < cells.skip(1).len() ==> cells.skip(1)[i] == cells[i + 1]);
        lemma_payloads_elements(cells.skip(1), id);
    }
}

/// A cell with the id contributes at least one payload.
pub proof fn lemma_payloads_nonempty(cells: Seq<CellView>, id: u64, k: int)
    requires
        0 <= k < cells.len(),
        cells[k].id == id,
    ensures
        payloads_of(cells, id).len() > 0,
    decreases cells.len(),
{
    if k == 0 {
    } else {
        assert(cells.skip(1)[k - 1] == cells[k]);
        lemma_payloads_nonempty(cells.skip(1), id, k - 1);
    }
}

/// Rows in snapshot order, oldest first.
pub open spec fn sorted_by_snapshot(rows: Seq<(u64, ProfileView)>) -> bool {
    forall|i: int, j: int|
        0 <= i <= j < rows.len() ==> #[trigger] rows[i].1.snapshot <= #[trigger] rows[j].1.snapshot
}

/// Sorts rows ascending by snapshot, keeping the same collection of rows.
fn sort_rows(rows: Vec<(u64, Profile)>) -> (r: Vec<(u64, Profile)>)
    ensures
        r.deep_view().to_multiset() == rows.deep_view().to_multiset(),
        sorted_by_snapshot(r.deep_view()),
{
    broadcast use vstd::seq_lib::group_to_multiset_ensures;
    broadcast use vstd::multiset::group_multiset_axioms;

    let ghost orig = rows.deep_view();
    let mut rest = rows;
    let mut out: Vec<(u64, Profile)> = Vec::new();
    while rest.len() > 0
        invariant
            out.deep_view().to_multiset().add(rest.deep_view().to_multiset())
                == orig.to_multiset(),
            sorted_by_snapshot(out.deep_view()),
            forall|i: int, j: int|
                0 <= i < out.deep_view().len() && 0 <= j < rest.deep_view().len()
                    ==> #[trigger] out.deep_view()[i].1.snapshot
                    <= #[trigger] rest.deep_view()[j].1.snapshot,
        decreases rest.len(),
    {
        let mut m: usize = 0;
        let mut k: usize = 1;
        while k < rest.len()
            invariant
                0 <= m < k <= rest.len(),
                rest.deep_view().len() == rest.len(),
                forall|j: int|
                    0 <= j < k ==> rest.deep_view()[m as int].1.snapshot
                        <= #[trigger] rest.deep_view()[j].1.snapshot,
            decreases rest.len() - k,
        {
            if rest[k].1.snapshot < rest[m].1.snapshot {
                m = k;
            }
            k = k + 1;
        }
        let ghost rest0 = rest.deep_view();
        let ghost out0 = out.deep_view();
        let x = rest.remove(m);
        let ghost xv = x.deep_view();
        out.push(x);
        proof {
            assert(rest.deep_view() =~= rest0.remove(m as int));
            assert(out.deep_view() =~= out0.push(xv));
            assert(xv == rest0[m as int]);
            rest0.to_multiset_ensures();
            out0.to_multiset_ensures();
            assert(rest0.contains(xv));
            assert(rest0.to_multiset().count(xv) > 0);
            assert(out0.push(xv).to_multiset() =~= out0.to_multiset().insert(xv));
            assert(rest0.remove(m as int).to_multiset() =~= rest0.to_multiset().remove(xv));
            assert(out.deep_view().to_multiset() =~= out0.to_multiset().insert(xv));
            assert(rest.deep_view().to_multiset() =~= rest0.to_multiset().remove(xv));
            assert forall|e: (u64, ProfileView)|
                out.deep_view().to_multiset().add(rest.deep_view().to_multiset()).count(e)
                    == orig.to_multiset().count(e) by {
                assert(out0.to_multiset().add(rest0.to_multiset()).count(e) == orig.to_multiset().count(e));
            }
            assert(out.deep_view().to_multiset().add(rest.deep_view().to_multiset()) =~= orig.to_multiset());
            assert forall|i: int, j: int|
                0 <= i < out.deep_view().len() && 0 <= j < rest.deep_view().len()
                    implies #[trigger] out.deep_view()[i].1.snapshot
                    <= #[trigger] rest.deep_view()[j].1.snapshot by {
                if j < m as int {
                    assert(rest.deep_view()[j] == rest0[j]);
                } else {
                    assert(rest.deep_view()[j] == rest0[j + 1]);
                }
            }
        }
    }
    out
}

impl ProfileStore {
    /// Every observation stored for this id, one row per handle the id has
    /// used, oldest snapshot first.
    pub fn lookup(&self, user_id: u64) -> (r: Vec<(u64, Profile)>)
        requires
            self.wf(),
        ensures
            r.deep_view().to_multiset() == payloads_of(self@, user_id).to_multiset(),
            sorted_by_snapshot(r.deep_view()),
            forall|i: int|
                0 <= i < r.deep_view().len() ==> #[trigger] r.deep_view()[i].1.id == user_id
                    && wf_profile(r.deep_view()[i].1),
    {
        broadcast use vstd::seq_lib::group_to_multiset_ensures;

        let ghost v = self@;
        let mut rows: Vec<(u64, Profile)> = Vec::new();
        let mut i: usize = 0;
        while i < self.cells.len()
            invariant
                0 <= i <= self.cells.len(),
                self@.len() == self.cells.len(),
                self.wf(),
                rows.deep_view() == payloads_of(self@.take(i as int), user_id),
            decreases self.cells.len() - i,
        {
            let ghost before = rows.deep_view();
            if self.cells[i].id == user_id {
                let fo = self.cells[i].first_observed;
                let p = clone_profile(&self.cells[i].profile);
                rows.push((fo, p));
            }
            proof {
                let c = self@[i as int];
                assert(self@.take(i + 1) =~= self@.take(i as int) + seq![c]);
                lemma_payloads_add(self@.take(i as int), seq![c], user_id);
                assert(seq![c].skip(1) =~= Seq::<CellView>::empty());
                assert(payloads_of(Seq::<CellView>::empty(), user_id) == Seq::<(
                    u64,
                    ProfileView,
                )>::empty());
                if c.id == user_id {
                    assert(payloads_of(seq![c], user_id) =~= seq![(c.first_observed, c.profile)]);
                    assert(rows.deep_view() =~= before.push((c.first_observed, c.profile)));
                } else {
                    assert(payloads_of(seq![c], user_id) =~= Seq::<(u64, ProfileView)>::empty());
                }
                assert(rows.deep_view() =~= payloads_of(self@.take(i + 1), user_id));
            }
            i = i + 1;
        }
        proof {
            assert(self@.take(self@.len() as int) =~= self@);
            lemma_payloads_elements(v, user_id);
        }
        let r = sort_rows(rows);
        proof {
            assert forall|i2: int|
                0 <= i2 < r.deep_view().len() implies #[trigger] r.deep_view()[i2].1.id == user_id
                    && wf_profile(r.deep_view()[i2].1) by {
                let e = r.deep_view()[i2];
                r.deep_view().to_multiset_ensures();
                payloads_of(v, user_id).to_multiset_ensures();
                assert(r.deep_view().contains(e));
                assert(r.deep_view().to_multiset().count(e) > 0);
                assert(payloads_of(v, user_id).to_multiset().count(e) > 0);
                assert(payloads_of(v, user_id).contains(e));
                let ps = payloads_of(v, user_id);
                let kk = choose|kk: int| 0 <= kk < ps.len() && ps[kk] == e;
                assert(ps[kk].1.id == user_id && wf_profile(ps[kk].1));
            }
        }
        r
    }

    /// Every row of the archive in key order: ascending id, then
    /// lexicographically ascending lowercased handle, each row carrying
    /// its first-observed time and payload.
    pub fn raw_iter(&self) -> (r: Vec<(u64, (u64, Profile))>)
        requires
            self.wf(),
        ensures
            r.deep_view() == self@.map_values(
                |c: CellView| (c.id, (c.first_observed, c.profile)),
            ),
            forall|i: int, j: int|
                0 <= i < j < r.deep_view().len() ==> key_lt(
                    (#[trigger] r.deep_view()[i]).0,
                    lower(r.deep_view()[i].1.1.screen_name),
                    (#[trigger] r.deep_view()[j]).0,
                    lower(r.deep_view()[j].1.1.screen_name),
                ),
    {
        let mut r: Vec<(u64, (u64, Profile))> = Vec::new();
        let mut i: usize = 0;
        while i < self.cells.len()
            invariant
                0 <= i <= self.cells.len(),
                self@.len() == self.cells.len(),
                r.deep_view().len() == i,
                forall|j: int|
                    0 <= j < i ==> #[trigger] r.deep_view()[j] == (self@[j].id, (
                    self@[j].first_observed, self@[j].profile)),
            decreases self.cells.len() - i,
        {
            let ghost r0 = r.deep_view();
            let c = &self.cells[i];
            r.push((c.id, (c.first_observed, clone_profile(&c.profile))));
            proof {
                assert(r.deep_view() =~= r0.push(
                    (self@[i as int].id, (self@[i as int].first_observed, self@[i as int].profile)),
                ));
            }
            i = i + 1;
        }
        proof {
            assert(r.deep_view() =~= self@.map_values(
                |c: CellView| (c.id, (c.first_observed, c.profile)),
            ));
            let rv = r.deep_view();
            assert forall|a: int, b: int|
                0 <= a < b < rv.len() implies key_lt(
                (#[trigger] rv[a]).0,
                lower(rv[a].1.1.screen_name),
                (#[trigger] rv[b]).0,
                lower(rv[b].1.1.screen_name),
            ) by {
                assert(cell_wf(self@[a]));
                assert(cell_wf(self@[b]));
                assert(rv[a].0 == self@[a].id && rv[a].1.1 == self@[a].profile);
                assert(rv[b].0 == self@[b].id && rv[b].1.1 == self@[b].profile);
                assert(lower(rv[a].1.1.screen_name) == self@[a].handle);
                assert(lower(rv[b].1.1.screen_name) == self@[b].handle);
            }
        }
        r
    }

    /// The full scan grouped by id: one batch per id present, in ascending
    /// id order, each batch sorted by snapshot and holding exactly that
    /// id's payloads.
    pub fn iter(&self) -> (r: Vec<Vec<(u64, Profile)>>)
        requires
            self.wf(),
        ensures
            ({
                let bs = r.deep_view();
                &&& forall|b: int| 0 <= b < bs.len() ==> #[trigger] bs[b].len() > 0
                &&& forall|b: int| 0 <= b < bs.len() ==> sorted_by_snapshot(#[trigger] bs[b])
                &&& forall|b: int, k: int|
                    0 <= b < bs.len() && 0 <= k < bs[b].len() ==> #[trigger] bs[b][k].1.id
                        == bs[b][0].1.id
                &&& forall|b: int|
                    0 <= b < bs.len() ==> (#[trigger] bs[b]).to_multiset() == payloads_of(
                        self@,
                        bs[b][0].1.id,
                    ).to_multiset()
                &&& forall|b1: int, b2: int|
                    0 <= b1 < b2 < bs.len() ==> #[trigger] bs[b1][0].1.id
                        < #[trigger] bs[b2][0].1.id
                &&& forall|i: int|
                    0 <= i < self@.len() ==> exists|b: int|
                        0 <= b < bs.len() && #[trigger] bs[b][0].1.id == #[trigger] self@[i].id
            }),
    {
        broadcast use vstd::seq_lib::group_to_multiset_ensures;

        let ghost v = self@;
        let mut r: Vec<Vec<(u64, Profile)>> = Vec::new();
        let mut i: usize = 0;
        while i < self.cells.len()
            invariant
                0 <= i <= self.cells.len(),
                self@.len() == self.cells.len(),
                v == self@,
                self.wf(),
                i < self.cells.len() ==> (r.deep_view().len() > 0 ==> r.deep_view().last()[0].1.id
                    < self@[i as int].id),
                forall|b: int| 0 <= b < r.deep_view().len() ==> #[trigger] r.deep_view()[b].len() > 0,
                forall|b: int|
                    0 <= b < r.deep_view().len() ==> sorted_by_snapshot(#[trigger] r.deep_view()[b]),
                forall|b: int, k: int|
                    0 <= b < r.deep_view().len() && 0 <= k < r.deep_view()[b].len()
                        ==> #[trigger] r.deep_view()[b][k].1.id == r.deep_view()[b][0].1.id,
                forall|b: int|
                    0 <= b < r.deep_view().len() ==> (#[trigger] r.deep_view()[b]).to_multiset()
                        == payloads_of(v, r.deep_view()[b][0].1.id).to_multiset(),
                forall|b1: int, b2: int|
                    0 <= b1 < b2 < r.deep_view().len() ==> #[trigger] r.deep_view()[b1][0].1.id
                        < #[trigger] r.deep_view()[b2][0].1.id,
                forall|k: int|
                    0 <= k < i ==> exists|b: int|
                        0 <= b < r.deep_view().len() && #[trigger] r.deep_view()[b][0].1.id
                            == #[trigger] v[k].id,
            decreases self.cells.len() - i,
        {
            let id = self.cells[i].id;
            let batch = self.lookup(id);
            proof {
                lemma_payloads_nonempty(v, id, i as int);
                payloads_of(v, id).to_multiset_ensures();
                batch.deep_view().to_multiset_ensures();
                assert(payloads_of(v, id).to_multiset().len() == payloads_of(v, id).len());
                assert(batch.deep_view().to_multiset().len() == batch.deep_view().len());
                assert(batch.deep_view().len() > 0);
            }
            let ghost r0 = r.deep_view();
            r.push(batch);
            proof {
                assert(r.deep_view() =~~= r0.push(batch.deep_view()));
            }
            proof {
                assert(r.deep_view()[r0.len() as int] == batch.deep_view());
                assert(r.deep_view()[r0.len() as int][0].1.id == id);
            }
            let ghost gstart = i;
            while i < self.cells.len() && self.cells[i].id == id
                invariant
                    gstart <= i <= self.cells.len(),
                    gstart < self@.len(),
                    self@.len() == self.cells.len(),
                    v == self@,
                    self.wf(),
                    id == self@[gstart as int].id,
                    forall|k: int| gstart <= k < i ==> #[trigger] self@[k].id == id,
                decreases self.cells.len() - i,
            {
                i = i + 1;
            }
            proof {
                let bs = r.deep_view();
                let b0 = r0.len() as int;
                assert(bs[b0] == batch.deep_view());
                assert(bs[b0][0].1.id == id);
                assert forall|k: int|
                    0 <= k < i implies exists|b: int|
                    0 <= b < bs.len() && #[trigger] bs[b][0].1.id == #[trigger] v[k].id by {
                    if k < gstart {
                        let bb = choose|bb: int|
                            0 <= bb < r0.len() && #[trigger] r0[bb][0].1.id == v[k].id;
                        assert(bs[bb][0].1.id == v[k].id);
                    } else {
                        assert(v[k].id == id);
                        assert(bs[b0][0].1.id == v[k].id);
                    }
                }
            }
        }
        proof {
            assert(r.deep_view().len() > 0 ==> r.deep_view().last() == r.deep_view()[r.deep_view().len() - 1]);
        }
        r
    }
}


/// A stored value: the eight-byte big-endian first-observed prefix, then
/// the encoded record. The prefix stands outside the record so the merge
/// can read it without a full decode.
pub open spec fn enc_value(first_observed: u64, p: ProfileView) -> Seq<u8> {
    u64_be(first_observed) + enc_profile(p)
}

/// Reads a stored value.
pub open spec fn rd_value(s: Seq<u8>) -> Option<(u64, ProfileView)> {
    if s.len() >= 8 {
        match rd_profile(s, 8) {
            Some((p, end)) => if end == s.len() {
                Some((be_val_8(s, 0) as u64, p))
            } else {
                None
            },
            None => None,
        }
    } else {
        None
    }
}

#[verifier::rlimit(100)]
#[verifier::spinoff_prover]
pub proof fn lemma_rd_value_sound(s: Seq<u8>)
    requires
        rd_value(s) is Some,
    ensures
        ({
            let (fo, p) = rd_value(s)->Some_0;
            s == enc_value(fo, p) && wf_profile(p)
        }),
{
    let (fo, p) = rd_value(s)->Some_0;
    lemma_rd_profile_sound(s, 8);
    crate::codec::lemma_u64_val_be(s, 0);
    assert(s =~= s.subrange(0, 8) + s.subrange(8, s.len() as int));
}

/// An eight-byte read sees only the first eight bytes.
#[verifier::spinoff_prover]
proof fn lemma_be_val_prefix(s: Seq<u8>, t: Seq<u8>)
    requires
        s.len() >= 8,
        t.len() >= 8,
        forall|i: int| 0 <= i < 8 ==> s[i] == t[i],
    ensures
        be_val_8(s, 0) == be_val_8(t, 0),
{
}

/// Assembles a successful read from its two parts.
#[verifier::spinoff_prover]
proof fn lemma_rd_value_parts(s: Seq<u8>, fo: u64, p: ProfileView)
    requires
        s.len() >= 8,
        rd_profile(s, 8) == Some((p, s.len() as int)),
        be_val_8(s, 0) == fo,
    ensures
        rd_value(s) == Some((fo, p)),
{
}

/// The two subranges of an encoded value are its prefix and its record.
#[verifier::spinoff_prover]
proof fn lemma_enc_value_split(first_observed: u64, p: ProfileView)
    ensures
        ({
            let s = enc_value(first_observed, p);
            &&& s.len() == 8 + enc_profile(p).len()
            &&& s.subrange(0, 8) == u64_be(first_observed)
            &&& s.subrange(8, s.len() as int) == enc_profile(p)
        }),
{
    let s = enc_value(first_observed, p);
    let e1 = u64_be(first_observed);
    let e2 = enc_profile(p);
    assert(s.subrange(0, s.len() as int) =~= s);
    crate::codec::lemma_prefix_parts(s, 0, e1, e2);
}

#[verifier::rlimit(100)]
#[verifier::spinoff_prover]
pub proof fn lemma_rd_value_complete(first_observed: u64, p: ProfileView)
    requires
        wf_profile(p),
    ensures
        rd_value(enc_value(first_observed, p)) == Some((first_observed, p)),
{
    let s = enc_value(first_observed, p);
    let e1 = u64_be(first_observed);
    lemma_enc_value_split(first_observed, p);
    lemma_rd_profile_complete(s, 8, p);
    crate::codec::lemma_u64_be_val(first_observed);
    lemma_be_val_prefix(s, e1);
    lemma_rd_value_parts(s, first_observed, p);
}

/// One merge step: earliest first-observed, and the payload with the later
/// snapshot, the incumbent on a tie.
pub open spec fn merge_pair(cur: (u64, ProfileView), v: (u64, ProfileView)) -> (u64, ProfileView) {
    (
        if v.0 < cur.0 {
            v.0
        } else {
            cur.0
        },
        if v.1.snapshot > cur.1.snapshot {
            v.1
        } else {
            cur.1
        },
    )
}

/// The reduction over the pending operand values: undecodable operands are
/// skipped, the rest are collapsed pairwise in order.
pub open spec fn fold_merge(cur: Option<(u64, ProfileView)>, ops: Seq<Seq<u8>>) -> Option<
    (u64, ProfileView),
>
    decreases ops.len(),
{
    if ops.len() == 0 {
        cur
    } else {
        let next = match rd_value(ops[0]) {
            None => cur,
            Some(v) => match cur {
                None => Some(v),
                Some(c) => Some(merge_pair(c, v)),
            },
        };
        fold_merge(next, ops.skip(1))
    }
}

#[verifier::rlimit(100)]
#[verifier::spinoff_prover]
pub proof fn lemma_fold_merge_add(cur: Option<(u64, ProfileView)>, a: Seq<Seq<u8>>, b: Seq<Seq<u8>>)
    ensures
        fold_merge(cur, a + b) == fold_merge(fold_merge(cur, a), b),
    decreases a.len(),
{
    if a.len() == 0 {
        assert(a + b =~= b);
    } else {
        let next = match rd_value(a[0]) {
            None => cur,
            Some(v) => match cur {
                None => Some(v),
                Some(c) => Some(merge_pair(c, v)),
            },
        };
        lemma_fold_merge_add(next, a.skip(1), b);
        assert((a + b).skip(1) =~= a.skip(1) + b);
    }
}

/// The decodable operands' values, in operand order.
pub open spec fn decoded_values(ops: Seq<Seq<u8>>) -> Seq<(u64, ProfileView)>
    decreases ops.len(),
{
    if ops.len() == 0 {
        Seq::empty()
    } else {
        let rest = decoded_values(ops.skip(1));
        match rd_value(ops[0]) {
            None => rest,
            Some(v) => seq![v] + rest,
        }
    }
}

/// The existing value and the decodable operands' values together.
pub open spec fn merge_inputs(cur: Option<(u64, ProfileView)>, ops: Seq<Seq<u8>>) -> Seq<
    (u64, ProfileView),
> {
    (match cur {
        None => Seq::<(u64, ProfileView)>::empty(),
        Some(c) => seq![c],
    }) + decoded_values(ops)
}

/// The reduction's result does not depend on the operands' order, only on
/// what they decode to: it is empty exactly when nothing decodes, and
/// otherwise holds the least observation time of the decoded inputs and a
/// payload of maximal snapshot among them.
pub proof fn lemma_fold_merge_extremes(cur: Option<(u64, ProfileView)>, ops: Seq<Seq<u8>>)
    ensures
        ({
            let d = merge_inputs(cur, ops);
            let m = fold_merge(cur, ops);
            &&& m is None <==> d.len() == 0
            &&& m matches Some(f) ==> {
                &&& forall|k: int| 0 <= k < d.len() ==> f.0 <= (#[trigger] d[k]).0
                &&& forall|k: int| 0 <= k < d.len() ==> f.1.snapshot >= (#[trigger] d[k]).1.snapshot
                &&& exists|k: int| 0 <= k < d.len() && f.0 == (#[trigger] d[k]).0
                &&& exists|k: int| 0 <= k < d.len() && f.1 == (#[trigger] d[k]).1
            }
        }),
    decreases ops.len(),
{
    let d = merge_inputs(cur, ops);
    if ops.len() == 0 {
        match cur {
            None => {
                assert(d =~= Seq::<(u64, ProfileView)>::empty());
            },
            Some(c) => {
                assert(d =~= seq![c]);
                assert(d[0] == c);
            },
        }
    } else {
        let rest = ops.skip(1);
        let dr = decoded_values(rest);
        match rd_value(ops[0]) {
            None => {
                lemma_fold_merge_extremes(cur, rest);
                assert(decoded_values(ops) == dr);
                assert(d == merge_inputs(cur, rest));
            },
            Some(v) => {
                match cur {
                    None => {
                        lemma_fold_merge_extremes(Some(v), rest);
                        assert(fold_merge(cur, ops) == fold_merge(Some(v), rest));
                        assert(d =~= merge_inputs(Some(v), rest));
                    },
                    Some(c) => {
                        let mp = merge_pair(c, v);
                        lemma_fold_merge_extremes(Some(mp), rest);
                        assert(fold_merge(cur, ops) == fold_merge(Some(mp), rest));
                        let dp = merge_inputs(Some(mp), rest);
                        assert(d =~= seq![c, v] + dr);
                        assert(dp =~= seq![mp] + dr);
                        let f = fold_merge(cur, ops)->Some_0;
                        assert(dp.len() > 0);
                        assert(d.len() == dp.len() + 1);
                        assert forall|k: int| 0 <= k < d.len() implies f.0 <= (
                        #[trigger] d[k]).0 by {
                            if k <= 1 {
                                assert(f.0 <= dp[0].0);
                                assert(mp.0 <= c.0 && mp.0 <= v.0);
                            } else {
                                assert(d[k] == dr[k - 2]);
                                assert(dp[k - 1] == dr[k - 2]);
                            }
                        }
                        assert forall|k: int| 0 <= k < d.len() implies f.1.snapshot >= (
                        #[trigger] d[k]).1.snapshot by {
                            if k <= 1 {
                                assert(f.1.snapshot >= dp[0].1.snapshot);
                                assert(mp.1.snapshot >= c.1.snapshot && mp.1.snapshot
                                    >= v.1.snapshot);
                            } else {
                                assert(d[k] == dr[k - 2]);
                                assert(dp[k - 1] == dr[k - 2]);
                            }
                        }
                        let kf = choose|k: int| 0 <= k < dp.len() && f.0 == (#[trigger] dp[k]).0;
                        if kf == 0 {
                            assert(mp.0 == c.0 || mp.0 == v.0);
                            if mp.0 == c.0 {
                                assert(f.0 == d[0].0);
                            } else {
                                assert(f.0 == d[1].0);
                            }
                        } else {
                            assert(dp[kf] == dr[kf - 1]);
                            assert(d[kf + 1] == dr[kf - 1]);
                            assert(f.0 == d[kf + 1].0);
                        }
                        let kp = choose|k: int| 0 <= k < dp.len() && f.1 == (#[trigger] dp[k]).1;
                        if kp == 0 {
                            assert(mp.1 == c.1 || mp.1 == v.1);
                            if mp.1 == c.1 {
                                assert(f.1 == d[0].1);
                            } else {
                                assert(f.1 == d[1].1);
                            }
                        } else {
                            assert(dp[kp] == dr[kp - 1]);
                            assert(d[kp + 1] == dr[kp - 1]);
                            assert(f.1 == d[kp + 1].1);
                        }
                    },
                }
            },
        }
    }
}

/// Two rows with the same multiset hold the same elements.
proof fn lemma_same_multiset_contains(
    x: Seq<(u64, ProfileView)>,
    y: Seq<(u64, ProfileView)>,
    e: (u64, ProfileView),
)
    requires
        x.to_multiset() == y.to_multiset(),
        x.contains(e),
    ensures
        y.contains(e),
{
    x.to_multiset_ensures();
    y.to_multiset_ensures();
    assert(x.to_multiset().count(e) > 0);
    assert(y.to_multiset().count(e) > 0);
}

/// Every element of one row appears somewhere in a row with the same
/// multiset.
#[verifier::spinoff_prover]
proof fn lemma_seq_exchange(x: Seq<(u64, ProfileView)>, y: Seq<(u64, ProfileView)>)
    requires
        x.to_multiset() == y.to_multiset(),
    ensures
        forall|k: int| 0 <= k < y.len() ==> x.contains(#[trigger] y[k]),
{
    assert forall|k: int| 0 <= k < y.len() implies x.contains(#[trigger] y[k]) by {
        assert(y.contains(y[k]));
        lemma_same_multiset_contains(y, x, y[k]);
    }
}

/// Each side's inputs all appear on the other side.
#[verifier::spinoff_prover]
proof fn lemma_merge_inputs_exchange(
    cur: Option<(u64, ProfileView)>,
    a: Seq<Seq<u8>>,
    b: Seq<Seq<u8>>,
)
    requires
        decoded_values(a).to_multiset() == decoded_values(b).to_multiset(),
    ensures
        merge_inputs(cur, a).len() == merge_inputs(cur, b).len(),
        forall|k: int|
            0 <= k < merge_inputs(cur, b).len() ==> merge_inputs(cur, a).contains(
                #[trigger] merge_inputs(cur, b)[k],
            ),
        forall|k: int|
            0 <= k < merge_inputs(cur, a).len() ==> merge_inputs(cur, b).contains(
                #[trigger] merge_inputs(cur, a)[k],
            ),
{
    let da = merge_inputs(cur, a);
    let db = merge_inputs(cur, b);
    let pre: Seq<(u64, ProfileView)> = match cur {
        None => Seq::empty(),
        Some(c) => seq![c],
    };
    assert(da == pre + decoded_values(a));
    assert(db == pre + decoded_values(b));
    assert(da.to_multiset() == db.to_multiset()) by {
        broadcast use vstd::multiset::group_multiset_axioms;

        vstd::seq_lib::lemma_multiset_commutative(pre, decoded_values(a));
        vstd::seq_lib::lemma_multiset_commutative(pre, decoded_values(b));
        assert(da.to_multiset() =~= db.to_multiset());
    }
    da.to_multiset_ensures();
    db.to_multiset_ensures();
    assert(da.len() == db.len());
    lemma_seq_exchange(da, db);
    lemma_seq_exchange(db, da);
}

/// With pairwise-distinct snapshots among the decoded inputs, the
/// reduction is invariant under reordering: two operand sequences that
/// decode to the same multiset of values collapse to the same result.
#[verifier::rlimit(100)]
#[verifier::spinoff_prover]
pub proof fn lemma_fold_merge_order_invariant(
    cur: Option<(u64, ProfileView)>,
    a: Seq<Seq<u8>>,
    b: Seq<Seq<u8>>,
)
    requires
        decoded_values(a).to_multiset() == decoded_values(b).to_multiset(),
        forall|i: int, j: int|
            0 <= i < j < merge_inputs(cur, a).len() ==> (#[trigger] merge_inputs(cur, a)[i]).1
                .snapshot != (#[trigger] merge_inputs(cur, a)[j]).1.snapshot,
    ensures
        fold_merge(cur, a) == fold_merge(cur, b),
{
    let da = merge_inputs(cur, a);
    let db = merge_inputs(cur, b);
    lemma_merge_inputs_exchange(cur, a, b);
    lemma_fold_merge_extremes(cur, a);
    lemma_fold_merge_extremes(cur, b);
    if da.len() == 0 {
    } else {
        let fa = fold_merge(cur, a)->Some_0;
        let fb = fold_merge(cur, b)->Some_0;
        assert(fa.0 == fb.0) by {
            let ka = choose|k: int| 0 <= k < da.len() && fa.0 == (#[trigger] da[k]).0;
            assert(db.contains(da[ka]));
            let k2 = choose|k2: int| 0 <= k2 < db.len() && db[k2] == da[ka];
            assert(fb.0 <= db[k2].0);
            let kb = choose|k: int| 0 <= k < db.len() && fb.0 == (#[trigger] db[k]).0;
            assert(da.contains(db[kb]));
            let k3 = choose|k3: int| 0 <= k3 < da.len() && da[k3] == db[kb];
            assert(fa.0 <= da[k3].0);
        }
        assert(fa.1 == fb.1) by {
            let ka = choose|k: int| 0 <= k < da.len() && fa.1 == (#[trigger] da[k]).1;
            let kb = choose|k: int| 0 <= k < db.len() && fb.1 == (#[trigger] db[k]).1;
            assert(db.contains(da[ka]));
            assert(da.contains(db[kb]));
            let k2 = choose|k2: int| 0 <= k2 < db.len() && db[k2] == da[ka];
            let k3 = choose|k3: int| 0 <= k3 < da.len() && da[k3] == db[kb];
            assert(fb.1.snapshot >= db[k2].1.snapshot);
            assert(fa.1.snapshot >= da[k3].1.snapshot);
            assert(fa.1.snapshot == fb.1.snapshot);
            assert(fb.1 == da[k3].1);
            if ka != k3 {
                assert(da[ka].1.snapshot != da[k3].1.snapshot);
            }
        }
        assert(fold_merge(cur, a) == Some(fa) && fold_merge(cur, b) == Some(fb));
        assert(fa == fb) by {
            assert(fa.0 == fb.0 && fa.1 == fb.1);
        }
    }
}

/// The mathematical value of an optional decoded pair.
pub open spec fn opt_pair_view(c: Option<(u64, Profile)>) -> Option<(u64, ProfileView)> {
    match c {
        None => None,
        Some((t, p)) => Some((t, p.deep_view())),
    }
}

/// Reads a stored value, mirroring [`rd_value`].
pub fn parse_value(s: &[u8]) -> (r: Option<(u64, Profile)>)
    ensures
        r is Some <==> rd_value(s@) is Some,
        r matches Some((fo, p)) ==> Some((fo, p.deep_view())) == rd_value(s@),
{
    let (fo, _) = match crate::codec::parse_u64_be(s, 0) {
        Some(x) => x,
        None => {
            return None;
        },
    };
    match parse_profile(s, 8) {
        Some((p, end)) => {
            if end == s.len() {
                proof {
                    crate::codec::lemma_u64_val_be(s@, 0);
                }
                Some((fo, p))
            } else {
                None
            }
        },
        None => None,
    }
}

/// The merge hook over raw value bytes: collapses an optional existing
/// value and the pending operands into one value. An operand that does not
/// decode is skipped; when nothing decodes, the existing bytes are kept
/// unchanged.
#[verifier::rlimit(100)]
pub fn merge_values(existing: Option<&Vec<u8>>, operands: &Vec<Vec<u8>>) -> (r: Option<Vec<u8>>)
    ensures
        ({
            let cur0 = match existing {
                Some(b) => rd_value(b@),
                None => None,
            };
            let m = fold_merge(cur0, operands.deep_view());
            &&& m matches Some((t, p)) ==> r matches Some(out) && out@ == enc_value(t, p)
            &&& m is None ==> (match existing {
                Some(b) => r matches Some(out) && out@ == b@,
                None => r is None,
            })
        }),
{
    let ghost cur0 = match existing {
        Some(b) => rd_value(b@),
        None => None,
    };
    let ghost all_ops = operands.deep_view();
    let mut cur: Option<(u64, Profile)> = match existing {
        Some(b) => parse_value(b.as_slice()),
        None => None,
    };
    proof {
        if cur is Some {
            lemma_rd_value_sound(existing->Some_0@);
        }
    }
    let mut i: usize = 0;
    while i < operands.len()
        invariant
            0 <= i <= operands.len(),
            all_ops == operands.deep_view(),
            all_ops.len() == operands.len(),
            opt_pair_view(cur) == fold_merge(cur0, all_ops.take(i as int)),
            cur matches Some((t, p)) ==> wf_profile(p.deep_view()),
        decreases operands.len() - i,
    {
        let ghost prev = opt_pair_view(cur);
        match parse_value(operands[i].as_slice()) {
            None => {
                proof {
                    assert(all_ops[i as int] == operands@[i as int]@);
                }
            },
            Some(v) => {
                proof {
                    assert(all_ops[i as int] == operands@[i as int]@);
                    lemma_rd_value_sound(operands@[i as int]@);
                }
                cur = match cur {
                    None => Some(v),
                    Some(c) => {
                        let fo = if v.0 < c.0 {
                            v.0
                        } else {
                            c.0
                        };
                        if v.1.snapshot > c.1.snapshot {
                            Some((fo, v.1))
                        } else {
                            Some((fo, c.1))
                        }
                    },
                };
            },
        }
        proof {
            assert(all_ops.take(i + 1) =~= all_ops.take(i as int) + seq![all_ops[i as int]]);
            lemma_fold_merge_add(cur0, all_ops.take(i as int), seq![all_ops[i as int]]);
            let single = seq![all_ops[i as int]];
            assert(single.skip(1) =~= Seq::<Seq<u8>>::empty());
            let next = match rd_value(single[0]) {
                None => prev,
                Some(v) => match prev {
                    None => Some(v),
                    Some(c) => Some(merge_pair(c, v)),
                },
            };
            assert(fold_merge(next, single.skip(1)) == next);
            assert(fold_merge(prev, single) == next);
            assert(opt_pair_view(cur) == next);
            assert(opt_pair_view(cur) == fold_merge(cur0, all_ops.take(i + 1)));
        }
        i = i + 1;
    }
    proof {
        assert(all_ops.take(all_ops.len() as int) =~= all_ops);
    }
    match cur {
        Some((t, p)) => {
            let mut out: Vec<u8> = Vec::new();
            crate::codec::write_u64_be(t, &mut out);
            let mut body = encode(&p);
            out.append(&mut body);
            Some(out)
        },
        None => match existing {
            Some(b) => Some(copy_bytes(b)),
            None => None,
        },
    }
}


/// A cell after a whole sequence of merges, in arrival order.
pub open spec fn fold_merges(c: CellView, ups: Seq<(ProfileView, u64)>) -> CellView
    decreases ups.len(),
{
    if ups.len() == 0 {
        c
    } else {
        merged_cell(fold_merges(c, ups.take(ups.len() - 1)), ups.last().1, ups.last().0)
    }
}

/// After any sequence of merges into a cell, the cell holds the earliest
/// first-observed time and the payload with the greatest snapshot seen.
pub proof fn lemma_fold_merges_extremes(c: CellView, ups: Seq<(ProfileView, u64)>)
    ensures
        ({
            let f = fold_merges(c, ups);
            &&& f.first_observed <= c.first_observed
            &&& forall|i: int| 0 <= i < ups.len() ==> f.first_observed <= (#[trigger] ups[i]).1
            &&& f.first_observed == c.first_observed || exists|i: int|
                0 <= i < ups.len() && f.first_observed == (#[trigger] ups[i]).1
            &&& f.profile.snapshot >= c.profile.snapshot
            &&& forall|i: int|
                0 <= i < ups.len() ==> f.profile.snapshot >= (#[trigger] ups[i]).0.snapshot
            &&& f.profile == c.profile || exists|i: int|
                0 <= i < ups.len() && f.profile == (#[trigger] ups[i]).0
            &&& f.id == c.id
            &&& f.handle == c.handle
        }),
    decreases ups.len(),
{
    if ups.len() > 0 {
        let pre = ups.take(ups.len() - 1);
        lemma_fold_merges_extremes(c, pre);
        let fpre = fold_merges(c, pre);
        let f = fold_merges(c, ups);
        assert(forall|i: int| 0 <= i < pre.len() ==> pre[i] == ups[i]);
        if fpre.first_observed == c.first_observed {
        } else {
            let w = choose|i: int|
                0 <= i < pre.len() && fpre.first_observed == (#[trigger] pre[i]).1;
            assert(ups[w].1 == fpre.first_observed);
        }
        if fpre.profile == c.profile {
        } else {
            let w = choose|i: int| 0 <= i < pre.len() && fpre.profile == (#[trigger] pre[i]).0;
            assert(ups[w].0 == fpre.profile);
        }
        assert(ups.last() == ups[ups.len() - 1]);
    }
}

/// The whole store after a sequence of upserts, each given as a payload
/// and its observation time, applied in order.
pub open spec fn store_after_updates(cells: Seq<CellView>, ups: Seq<(ProfileView, u64)>) -> Seq<
    CellView,
>
    decreases ups.len(),
{
    if ups.len() == 0 {
        cells
    } else {
        store_after_update(
            store_after_updates(cells, ups.take(ups.len() - 1)),
            ups.last().0,
            ups.last().1,
        )
    }
}

proof fn lemma_update_sequence_cell(
    cells0: Seq<CellView>,
    ups: Seq<(ProfileView, u64)>,
    id: u64,
    handle: Seq<u8>,
)
    requires
        ups.len() > 0,
        forall|k: int|
            0 <= k < ups.len() ==> (#[trigger] ups[k]).0.id == id && lower(ups[k].0.screen_name)
                == handle,
        find_cell(cells0, id, handle) == -1,
    ensures
        ({
            let s = store_after_updates(cells0, ups);
            let j = find_cell(s, id, handle);
            &&& 0 <= j < s.len()
            &&& s[j] == fold_merges(new_cell(ups[0].0, ups[0].1), ups.skip(1))
        }),
    decreases ups.len(),
{
    if ups.len() == 1 {
        let p = ups[0].0;
        let t = ups[0].1;
        assert(ups.take(0) =~= Seq::<(ProfileView, u64)>::empty());
        let s = store_after_updates(cells0, ups);
        assert(s == store_after_update(cells0, p, t));
        lemma_find_cell_spec(cells0, id, handle);
        lemma_insert_pos_spec(cells0, id, handle);
        let ip = insert_pos(cells0, id, handle);
        assert(s == cells0.insert(ip, new_cell(p, t)));
        cells0.insert_ensures(ip, new_cell(p, t));
        assert forall|i: int|
            0 <= i < ip implies !(#[trigger] s[i].id == id && s[i].handle == handle) by {
            assert(s[i] == cells0[i]);
        }
        assert(s[ip].id == id && s[ip].handle == handle);
        lemma_find_cell_at(s, id, handle, ip);
        assert(ups.skip(1) =~= Seq::<(ProfileView, u64)>::empty());
        assert(fold_merges(new_cell(p, t), ups.skip(1)) == new_cell(p, t));
    } else {
        let pre = ups.take(ups.len() - 1);
        assert(pre[0] == ups[0]);
        lemma_update_sequence_cell(cells0, pre, id, handle);
        let sp = store_after_updates(cells0, pre);
        let j = find_cell(sp, id, handle);
        lemma_find_cell_spec(sp, id, handle);
        let p = ups.last().0;
        let t = ups.last().1;
        let s = store_after_updates(cells0, ups);
        assert(s == store_after_update(sp, p, t));
        assert(s == sp.update(j, merged_cell(sp[j], t, p)));
        assert forall|i: int|
            0 <= i < j implies !(#[trigger] s[i].id == id && s[i].handle == handle) by {
            assert(s[i] == sp[i]);
        }
        assert(s[j].id == id && s[j].handle == handle);
        lemma_find_cell_at(s, id, handle, j);
        let c0 = new_cell(ups[0].0, ups[0].1);
        let u = ups.skip(1);
        assert(u.take(u.len() - 1) =~= pre.skip(1));
        assert(u.last() == ups.last());
        assert(fold_merges(c0, u) == merged_cell(fold_merges(c0, pre.skip(1)), t, p));
    }
}

/// After any sequence of upserts for one (id, handle) key absent at the
/// start, the key's single cell holds the earliest observation time and
/// the payload with the greatest snapshot among those upserts, whatever
/// their order.
pub proof fn lemma_update_sequence_extremes(
    cells0: Seq<CellView>,
    ups: Seq<(ProfileView, u64)>,
    id: u64,
    handle: Seq<u8>,
)
    requires
        ups.len() > 0,
        forall|k: int|
            0 <= k < ups.len() ==> (#[trigger] ups[k]).0.id == id && lower(ups[k].0.screen_name)
                == handle,
        find_cell(cells0, id, handle) == -1,
    ensures
        ({
            let s = store_after_updates(cells0, ups);
            let j = find_cell(s, id, handle);
            &&& 0 <= j < s.len()
            &&& forall|k: int| 0 <= k < ups.len() ==> s[j].first_observed <= (#[trigger] ups[k]).1
            &&& exists|k: int| 0 <= k < ups.len() && s[j].first_observed == (#[trigger] ups[k]).1
            &&& forall|k: int|
                0 <= k < ups.len() ==> s[j].profile.snapshot >= (#[trigger] ups[k]).0.snapshot
            &&& exists|k: int| 0 <= k < ups.len() && s[j].profile == (#[trigger] ups[k]).0
        }),
{
    lemma_update_sequence_cell(cells0, ups, id, handle);
    let c0 = new_cell(ups[0].0, ups[0].1);
    let u = ups.skip(1);
    lemma_fold_merges_extremes(c0, u);
    let f = fold_merges(c0, u);
    assert(forall|i: int| 0 <= i < u.len() ==> u[i] == ups[i + 1]);
    assert forall|k: int| 0 <= k < ups.len() implies f.first_observed <= (#[trigger] ups[k]).1 by {
        if k > 0 {
            assert(u[k - 1] == ups[k]);
        }
    }
    assert forall|k: int|
        0 <= k < ups.len() implies f.profile.snapshot >= (#[trigger] ups[k]).0.snapshot by {
        if k > 0 {
            assert(u[k - 1] == ups[k]);
        }
    }
    if f.first_observed == c0.first_observed {
        assert(f.first_observed == ups[0].1);
    } else {
        let w = choose|i: int| 0 <= i < u.len() && f.first_observed == (#[trigger] u[i]).1;
        assert(f.first_observed == ups[w + 1].1);
    }
    if f.profile == c0.profile {
        assert(f.profile == ups[0].0);
    } else {
        let w = choose|i: int| 0 <= i < u.len() && f.profile == (#[trigger] u[i]).0;
        assert(f.profile == ups[w + 1].0);
    }
}

/// Rows sorted by snapshot with pairwise distinct snapshots are strictly
/// ascending.
pub proof fn lemma_sorted_distinct_strict(rows: Seq<(u64, ProfileView)>)
    requires
        sorted_by_snapshot(rows),
        forall|i: int, j: int|
            0 <= i < j < rows.len() ==> (#[trigger] rows[i]).1.snapshot != (
            #[trigger] rows[j]).1.snapshot,
    ensures
        forall|i: int, j: int|
            0 <= i < j < rows.len() ==> (#[trigger] rows[i]).1.snapshot < (
            #[trigger] rows[j]).1.snapshot,
{
}

} // verus!
