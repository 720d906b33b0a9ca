//! The profile record: the unit of observation that the archive stores.
//!
//! A record carries the identity fields the core interprets (id, screen
//! name, snapshot), the observable account attributes, and the entity URL
//! lists, which the store round-trips without interpreting. Textual fields
//! are held as UTF-8 bytes.

use vstd::prelude::*;
use crate::codec::{
    enc_bool, enc_bytes, enc_opt_bytes, enc_vec_bytes, lemma_prefix_parts, lemma_rd_bool_complete,
    lemma_rd_bool_sound, lemma_rd_bytes_complete, lemma_rd_bytes_sound,
    lemma_rd_opt_bytes_complete, lemma_rd_opt_bytes_sound, lemma_rd_vec_bytes_complete,
    lemma_rd_vec_bytes_sound, lemma_subrange_split, parse_bool, parse_bytes, parse_opt_bytes,
    parse_vec_bytes, rd_bool, rd_bytes, rd_opt_bytes, rd_vec_bytes, wf_bytes, wf_bytes_list,
    wf_opt_bytes, write_bool, write_bytes, write_opt_bytes, write_vec_bytes,
};

verus! {

/// One entry of an entity URL list: the shortened URL and, when the
/// upstream expanded it, the expanded form.
#[derive(Debug, PartialEq, Eq)]
pub struct UrlEntry {
    pub url: Vec<u8>,
    pub expanded: Option<Vec<u8>>,
}

/// Mathematical image of a [`UrlEntry`].
pub struct UrlEntryView {
    pub url: Seq<u8>,
    pub expanded: Option<Seq<u8>>,
}

impl DeepView for UrlEntry {
    type V = UrlEntryView;

    open spec fn deep_view(&self) -> UrlEntryView {
        UrlEntryView {
            url: self.url@,
            expanded: match self.expanded {
                Some(v) => Some(v@),
                None => None,
            },
        }
    }
}

/// The entity URL lists attached to a profile: one optional list under the
/// profile's `url` field and one under its description.
#[derive(Debug, PartialEq, Eq)]
pub struct Entities {
    pub url_urls: Option<Vec<UrlEntry>>,
    pub description_urls: Option<Vec<UrlEntry>>,
}

/// Mathematical image of [`Entities`].
pub struct EntitiesView {
    pub url_urls: Option<Seq<UrlEntryView>>,
    pub description_urls: Option<Seq<UrlEntryView>>,
}

impl DeepView for Entities {
    type V = EntitiesView;

    open spec fn deep_view(&self) -> EntitiesView {
        EntitiesView {
            url_urls: match self.url_urls {
                Some(ref v) => Some(v.deep_view()),
                None => None,
            },
            description_urls: match self.description_urls {
                Some(ref v) => Some(v.deep_view()),
                None => None,
            },
        }
    }
}

pub open spec fn wf_url_entry(u: UrlEntryView) -> bool {
    wf_bytes(u.url) && wf_opt_bytes(u.expanded)
}

pub open spec fn wf_url_list(l: Seq<UrlEntryView>) -> bool {
    l.len() <= 0xFFFF_FFFF && forall|i: int| 0 <= i < l.len() ==> wf_url_entry(#[trigger] l[i])
}

pub open spec fn wf_opt_url_list(o: Option<Seq<UrlEntryView>>) -> bool {
    o matches Some(l) ==> wf_url_list(l)
}

pub open spec fn wf_entities(e: EntitiesView) -> bool {
    wf_opt_url_list(e.url_urls) && wf_opt_url_list(e.description_urls)
}

pub open spec fn wf_opt_entities(o: Option<EntitiesView>) -> bool {
    o matches Some(e) ==> wf_entities(e)
}

/// A URL entry is its URL then its optional expanded form.
pub open spec fn enc_url_entry(u: UrlEntryView) -> Seq<u8> {
    enc_bytes(u.url) + enc_opt_bytes(u.expanded)
}

pub open spec fn rd_url_entry(s: Seq<u8>, pos: int) -> Option<(UrlEntryView, int)> {
    match rd_bytes(s, pos) {
        None => None,
        Some((url, p1)) => match rd_opt_bytes(s, p1) {
            None => None,
            Some((expanded, end)) => Some((UrlEntryView { url, expanded }, end)),
        },
    }
}

pub proof fn lemma_rd_url_entry_sound(s: Seq<u8>, pos: int)
    requires
        rd_url_entry(s, pos) is Some,
    ensures
        ({
            let (v, end) = rd_url_entry(s, pos)->Some_0;
            pos <= end <= s.len() && s.subrange(pos, end) == enc_url_entry(v) && wf_url_entry(v)
        }),
{
    let (v, end) = rd_url_entry(s, pos)->Some_0;
    let (url, p1) = rd_bytes(s, pos)->Some_0;
    lemma_rd_bytes_sound(s, pos);
    lemma_rd_opt_bytes_sound(s, p1);
    lemma_subrange_split(s, pos, p1, end);
}

pub proof fn lemma_rd_url_entry_complete(s: Seq<u8>, pos: int, v: UrlEntryView)
    requires
        0 <= pos,
        wf_url_entry(v),
        pos + enc_url_entry(v).len() <= s.len(),
        s.subrange(pos, pos + enc_url_entry(v).len()) == enc_url_entry(v),
    ensures
        rd_url_entry(s, pos) == Some((v, pos + enc_url_entry(v).len())),
{
    let e1 = enc_bytes(v.url);
    let e2 = enc_opt_bytes(v.expanded);
    lemma_prefix_parts(s, pos, e1, e2);
    lemma_rd_bytes_complete(s, pos, v.url);
    lemma_rd_opt_bytes_complete(s, pos + e1.len(), v.expanded);
}

/// Writes one URL entry.
pub fn write_url_entry(u: &UrlEntry, out: &mut Vec<u8>)
    requires
        wf_url_entry(u.deep_view()),
    ensures
        final(out)@ == old(out)@ + enc_url_entry(u.deep_view()),
{
    write_bytes(&u.url, out);
    write_opt_bytes(&u.expanded, out);
    proof {
        assert(out@ =~= old(out)@ + enc_url_entry(u.deep_view()));
    }
}

/// Reads one URL entry, mirroring [`rd_url_entry`].
pub fn parse_url_entry(s: &[u8], pos: usize) -> (r: Option<(UrlEntry, usize)>)
    ensures
        r is Some <==> rd_url_entry(s@, pos as int) is Some,
        r matches Some((v, end)) ==> Some((v.deep_view(), end as int)) == rd_url_entry(
            s@,
            pos as int,
        ),
{
    let (url, p1) = match parse_bytes(s, pos) {
        Some(x) => x,
        None => {
            return None;
        },
    };
    let (expanded, end) = match parse_opt_bytes(s, p1) {
        Some(x) => x,
        None => {
            return None;
        },
    };
    Some((UrlEntry { url, expanded }, end))
}

/// Body of a URL list: each entry in order.
pub open spec fn enc_url_list(l: Seq<UrlEntryView>) -> Seq<u8>
    decreases l.len(),
{
    if l.len() == 0 {
        Seq::empty()
    } else {
        enc_url_entry(l[0]) + enc_url_list(l.skip(1))
    }
}

/// Counted URL list: four-byte big-endian count, then the entries.
pub open spec fn enc_vec_url(l: Seq<UrlEntryView>) -> Seq<u8> {
    crate::codec::u32_be(l.len() as u32) + enc_url_list(l)
}

pub open spec fn rd_url_list(s: Seq<u8>, pos: int, n: nat) -> Option<(Seq<UrlEntryView>, int)>
    decreases n,
{
    if n == 0 {
        Some((Seq::empty(), pos))
    } else {
        match rd_url_entry(s, pos) {
            None => None,
            Some((v, p1)) => match rd_url_list(s, p1, (n - 1) as nat) {
                None => None,
                Some((rest, end)) => Some((seq![v] + rest, end)),
            },
        }
    }
}

pub open spec fn rd_vec_url(s: Seq<u8>, pos: int) -> Option<(Seq<UrlEntryView>, int)> {
    if 0 <= pos && pos + 4 <= s.len() {
        rd_url_list(s, pos + 4, crate::codec::be_val_4(s, pos) as nat)
    } else {
        None
    }
}

pub proof fn lemma_enc_url_list_add(a: Seq<UrlEntryView>, b: Seq<UrlEntryView>)
    ensures
        enc_url_list(a + b) == enc_url_list(a) + enc_url_list(b),
    decreases a.len(),
{
    if a.len() == 0 {
        assert(a + b =~= b);
        assert(enc_url_list(a) + enc_url_list(b) =~= enc_url_list(b));
    } else {
        lemma_enc_url_list_add(a.skip(1), b);
        assert((a + b).skip(1) =~= a.skip(1) + b);
        assert(enc_url_list(a + b) =~= enc_url_list(a) + enc_url_list(b));
    }
}

pub proof fn lemma_rd_url_list_sound(s: Seq<u8>, pos: int, n: nat)
    requires
        rd_url_list(s, pos, n) is Some,
        0 <= pos <= s.len(),
    ensures
        ({
            let (l, end) = rd_url_list(s, pos, n)->Some_0;
            pos <= end <= s.len() && l.len() == n && s.subrange(pos, end) == enc_url_list(l) && (
            forall|i: int| 0 <= i < l.len() ==> wf_url_entry(#[trigger] l[i]))
        }),
    decreases n,
{
    let (l, end) = rd_url_list(s, pos, n)->Some_0;
    if n == 0 {
        assert(s.subrange(pos, end) =~= enc_url_list(l));
    } else {
        let (v, p1) = rd_url_entry(s, pos)->Some_0;
        lemma_rd_url_entry_sound(s, pos);
        lemma_rd_url_list_sound(s, p1, (n - 1) as nat);
        let (rest, _) = rd_url_list(s, p1, (n - 1) as nat)->Some_0;
        lemma_subrange_split(s, pos, p1, end);
        assert((seq![v] + rest).skip(1) =~= rest);
        assert(s.subrange(pos, end) =~= enc_url_list(l));
    }
}

pub proof fn lemma_rd_url_list_complete(s: Seq<u8>, pos: int, l: Seq<UrlEntryView>)
    requires
        0 <= pos,
        forall|i: int| 0 <= i < l.len() ==> wf_url_entry(#[trigger] l[i]),
        pos + enc_url_list(l).len() <= s.len(),
        s.subrange(pos, pos + enc_url_list(l).len()) == enc_url_list(l),
    ensures
        rd_url_list(s, pos, l.len()) == Some((l, pos + enc_url_list(l).len())),
    decreases l.len(),
{
    if l.len() == 0 {
        assert(l =~= Seq::<UrlEntryView>::empty());
    } else {
        let e1 = enc_url_entry(l[0]);
        let e2 = enc_url_list(l.skip(1));
        lemma_prefix_parts(s, pos, e1, e2);
        lemma_rd_url_entry_complete(s, pos, l[0]);
        lemma_rd_url_list_complete(s, pos + e1.len(), l.skip(1));
        assert(seq![l[0]] + l.skip(1) =~= l);
    }
}

pub proof fn lemma_rd_vec_url_sound(s: Seq<u8>, pos: int)
    requires
        rd_vec_url(s, pos) is Some,
    ensures
        ({
            let (l, end) = rd_vec_url(s, pos)->Some_0;
            pos <= end <= s.len() && s.subrange(pos, end) == enc_vec_url(l) && wf_url_list(l)
        }),
{
    let (l, end) = rd_vec_url(s, pos)->Some_0;
    let n = crate::codec::be_val_4(s, pos) as nat;
    lemma_rd_url_list_sound(s, pos + 4, n);
    crate::codec::lemma_u32_val_be(s, pos);
    assert(crate::codec::u32_be(l.len() as u32) =~= s.subrange(pos, pos + 4));
    lemma_subrange_split(s, pos, pos + 4, end);
}

pub proof fn lemma_rd_vec_url_complete(s: Seq<u8>, pos: int, l: Seq<UrlEntryView>)
    requires
        0 <= pos,
        wf_url_list(l),
        pos + enc_vec_url(l).len() <= s.len(),
        s.subrange(pos, pos + enc_vec_url(l).len()) == enc_vec_url(l),
    ensures
        rd_vec_url(s, pos) == Some((l, pos + enc_vec_url(l).len())),
{
    let e1 = crate::codec::u32_be(l.len() as u32);
    let e2 = enc_url_list(l);
    lemma_prefix_parts(s, pos, e1, e2);
    crate::codec::lemma_u32_be_val(l.len() as u32);
    assert(crate::codec::be_val_4(s, pos) == crate::codec::be_val_4(s.subrange(pos, pos + 4), 0));
    assert(crate::codec::be_val_4(s, pos) == l.len());
    lemma_rd_url_list_complete(s, pos + 4, l);
}

/// Writes a counted URL list.
pub fn write_vec_url(v: &Vec<UrlEntry>, out: &mut Vec<u8>)
    requires
        wf_url_list(v.deep_view()),
    ensures
        final(out)@ == old(out)@ + enc_vec_url(v.deep_view()),
{
    crate::codec::write_u32_be(v.len() as u32, out);
    let ghost mid = out@;
    let ghost l = v.deep_view();
    let mut i: usize = 0;
    while i < v.len()
        invariant
            0 <= i <= v.len(),
            l == v.deep_view(),
            l.len() == v.len(),
            wf_url_list(l),
            out@ == mid + enc_url_list(l.subrange(0, i as int)),
        decreases v.len() - i,
    {
        proof {
            assert(l[i as int] == v@[i as int].deep_view());
        }
        write_url_entry(&v[i], out);
        proof {
            assert(l.subrange(0, i + 1) =~= l.subrange(0, i as int) + seq![l[i as int]]);
            lemma_enc_url_list_add(l.subrange(0, i as int), seq![l[i as int]]);
            assert(seq![l[i as int]].skip(1) =~= Seq::<UrlEntryView>::empty());
            assert(enc_url_list(Seq::<UrlEntryView>::empty()) == Seq::<u8>::empty());
            assert(enc_url_list(seq![l[i as int]]) =~= enc_url_entry(l[i as int]));
            assert(out@ =~= mid + enc_url_list(l.subrange(0, i + 1)));
        }
        i = i + 1;
    }
    proof {
        assert(l.subrange(0, l.len() as int) =~= l);
        assert(out@ =~= old(out)@ + enc_vec_url(l));
    }
}

/// Reads a counted URL list, mirroring [`rd_vec_url`].
pub fn parse_vec_url(s: &[u8], pos: usize) -> (r: Option<(Vec<UrlEntry>, usize)>)
    ensures
        r is Some <==> rd_vec_url(s@, pos as int) is Some,
        r matches Some((v, end)) ==> Some((v.deep_view(), end as int)) == rd_vec_url(
            s@,
            pos as int,
        ),
{
    let (n, start) = match crate::codec::parse_u32_be(s, pos) {
        Some(x) => x,
        None => {
            return None;
        },
    };
    let ghost n_spec = crate::codec::be_val_4(s@, pos as int) as nat;
    let mut acc: Vec<UrlEntry> = Vec::new();
    let mut cur: usize = start;
    let mut i: u32 = 0;
    proof {
        let spec0 = rd_url_list(s@, start as int, n_spec);
        if spec0 is Some {
            let (rest, e) = spec0->Some_0;
            assert(acc.deep_view() + rest =~~= rest);
        }
    }
    while i < n
        invariant
            0 <= i <= n,
            pos + 4 <= s@.len(),
            start == pos + 4,
            n_spec == n,
            n_spec == crate::codec::be_val_4(s@, pos as int) as nat,
            cur <= s@.len(),
            acc.deep_view().len() == i,
            rd_url_list(s@, start as int, n_spec) == (match rd_url_list(
                s@,
                cur as int,
                (n - i) as nat,
            ) {
                Some((rest, e)) => Some((acc.deep_view() + rest, e)),
                None => None::<(Seq<UrlEntryView>, int)>,
            }),
        decreases n - i,
    {
        match parse_url_entry(s, cur) {
            None => {
                return None;
            },
            Some((v, next)) => {
                proof {
                    lemma_rd_url_entry_sound(s@, cur as int);
                    let rest_opt = rd_url_list(s@, next as int, (n - i - 1) as nat);
                    if rest_opt is Some {
                        let (rest, e) = rest_opt->Some_0;
                        assert(acc.deep_view() + (seq![v.deep_view()] + rest) =~~= (
                        acc.deep_view().push(v.deep_view())) + rest);
                    }
                }
                let ghost old_acc = acc.deep_view();
                let ghost vv = v.deep_view();
                acc.push(v);
                proof {
                    assert(acc.deep_view() =~~= old_acc.push(vv));
                }
                cur = next;
                i = i + 1;
            },
        }
    }
    proof {
        assert(rd_url_list(s@, cur as int, 0) == Some((Seq::<UrlEntryView>::empty(), cur as int)));
        assert(acc.deep_view() + Seq::<UrlEntryView>::empty() =~~= acc.deep_view());
    }
    Some((acc, cur))
}

/// Tagged optional URL list.
pub open spec fn enc_opt_vec_url(o: Option<Seq<UrlEntryView>>) -> Seq<u8> {
    match o {
        None => seq![0u8],
        Some(l) => seq![1u8] + enc_vec_url(l),
    }
}

pub open spec fn rd_opt_vec_url(s: Seq<u8>, pos: int) -> Option<(Option<Seq<UrlEntryView>>, int)> {
    match rd_bool(s, pos) {
        None => None,
        Some((present, p1)) => {
            if present {
                match rd_vec_url(s, p1) {
                    None => None,
                    Some((l, end)) => Some((Some(l), end)),
                }
            } else {
                Some((None, p1))
            }
        },
    }
}

pub proof fn lemma_rd_opt_vec_url_sound(s: Seq<u8>, pos: int)
    requires
        rd_opt_vec_url(s, pos) is Some,
    ensures
        ({
            let (o, end) = rd_opt_vec_url(s, pos)->Some_0;
            pos <= end <= s.len() && s.subrange(pos, end) == enc_opt_vec_url(o)
                && wf_opt_url_list(o)
        }),
{
    let (o, end) = rd_opt_vec_url(s, pos)->Some_0;
    let (present, p1) = rd_bool(s, pos)->Some_0;
    lemma_rd_bool_sound(s, pos);
    if present {
        lemma_rd_vec_url_sound(s, p1);
        lemma_subrange_split(s, pos, p1, end);
        assert(s.subrange(pos, end) =~= enc_opt_vec_url(o));
    } else {
        assert(s.subrange(pos, end) =~= enc_opt_vec_url(o));
    }
}

pub proof fn lemma_rd_opt_vec_url_complete(s: Seq<u8>, pos: int, o: Option<Seq<UrlEntryView>>)
    requires
        0 <= pos,
        wf_opt_url_list(o),
        pos + enc_opt_vec_url(o).len() <= s.len(),
        s.subrange(pos, pos + enc_opt_vec_url(o).len()) == enc_opt_vec_url(o),
    ensures
        rd_opt_vec_url(s, pos) == Some((o, pos + enc_opt_vec_url(o).len())),
{
    let e = enc_opt_vec_url(o);
    assert(s[pos] == e[0]);
    match o {
        None => {
            assert(rd_bool(s, pos) == Some((false, pos + 1)));
        },
        Some(l) => {
            assert(rd_bool(s, pos) == Some((true, pos + 1)));
            assert(s.subrange(pos + 1, pos + 1 + enc_vec_url(l).len()) =~= enc_vec_url(l)) by {
                assert forall|i: int| 0 <= i < enc_vec_url(l).len() implies s[pos + 1 + i]
                    == enc_vec_url(l)[i] by {
                    assert(s.subrange(pos, pos + e.len() as int)[1 + i] == s[pos + 1 + i]);
                    assert(e[1 + i] == enc_vec_url(l)[i]);
                }
            }
            lemma_rd_vec_url_complete(s, pos + 1, l);
        },
    }
}

/// Writes a tagged optional URL list.
pub fn write_opt_vec_url(o: &Option<Vec<UrlEntry>>, out: &mut Vec<u8>)
    requires
        wf_opt_url_list(o.deep_view()),
    ensures
        final(out)@ == old(out)@ + enc_opt_vec_url(o.deep_view()),
{
    match o {
        None => {
            write_bool(false, out);
            proof {
                assert(out@ =~= old(out)@ + enc_opt_vec_url(o.deep_view()));
            }
        },
        Some(v) => {
            write_bool(true, out);
            write_vec_url(v, out);
            proof {
                assert(out@ =~= old(out)@ + enc_opt_vec_url(o.deep_view()));
            }
        },
    }
}

/// Reads a tagged optional URL list, mirroring [`rd_opt_vec_url`].
pub fn parse_opt_vec_url(s: &[u8], pos: usize) -> (r: Option<(Option<Vec<UrlEntry>>, usize)>)
    ensures
        r is Some <==> rd_opt_vec_url(s@, pos as int) is Some,
        r matches Some((v, end)) ==> Some((v.deep_view(), end as int)) == rd_opt_vec_url(
            s@,
            pos as int,
        ),
{
    let (present, p1) = match parse_bool(s, pos) {
        Some(x) => x,
        None => {
            return None;
        },
    };
    if present {
        match parse_vec_url(s, p1) {
            Some((v, end)) => Some((Some(v), end)),
            None => None,
        }
    } else {
        Some((None, p1))
    }
}

/// The two entity URL lists in order.
pub open spec fn enc_entities(e: EntitiesView) -> Seq<u8> {
    enc_opt_vec_url(e.url_urls) + enc_opt_vec_url(e.description_urls)
}

pub open spec fn rd_entities(s: Seq<u8>, pos: int) -> Option<(EntitiesView, int)> {
    match rd_opt_vec_url(s, pos) {
        None => None,
        Some((url_urls, p1)) => match rd_opt_vec_url(s, p1) {
            None => None,
            Some((description_urls, end)) => Some(
                (EntitiesView { url_urls, description_urls }, end),
            ),
        },
    }
}

pub proof fn lemma_rd_entities_sound(s: Seq<u8>, pos: int)
    requires
        rd_entities(s, pos) is Some,
    ensures
        ({
            let (e, end) = rd_entities(s, pos)->Some_0;
            pos <= end <= s.len() && s.subrange(pos, end) == enc_entities(e) && wf_entities(e)
        }),
{
    let (e, end) = rd_entities(s, pos)->Some_0;
    let (u, p1) = rd_opt_vec_url(s, pos)->Some_0;
    lemma_rd_opt_vec_url_sound(s, pos);
    lemma_rd_opt_vec_url_sound(s, p1);
    lemma_subrange_split(s, pos, p1, end);
}

pub proof fn lemma_rd_entities_complete(s: Seq<u8>, pos: int, e: EntitiesView)
    requires
        0 <= pos,
        wf_entities(e),
        pos + enc_entities(e).len() <= s.len(),
        s.subrange(pos, pos + enc_entities(e).len()) == enc_entities(e),
    ensures
        rd_entities(s, pos) == Some((e, pos + enc_entities(e).len())),
{
    let e1 = enc_opt_vec_url(e.url_urls);
    let e2 = enc_opt_vec_url(e.description_urls);
    lemma_prefix_parts(s, pos, e1, e2);
    lemma_rd_opt_vec_url_complete(s, pos, e.url_urls);
    lemma_rd_opt_vec_url_complete(s, pos + e1.len(), e.description_urls);
}

/// Writes the two entity URL lists.
pub fn write_entities(e: &Entities, out: &mut Vec<u8>)
    requires
        wf_entities(e.deep_view()),
    ensures
        final(out)@ == old(out)@ + enc_entities(e.deep_view()),
{
    proof {
        assert(e.url_urls.deep_view() == e.deep_view().url_urls);
        assert(e.description_urls.deep_view() == e.deep_view().description_urls);
    }
    write_opt_vec_url(&e.url_urls, out);
    write_opt_vec_url(&e.description_urls, out);
    proof {
        assert(out@ =~= old(out)@ + enc_entities(e.deep_view()));
    }
}

/// Reads the two entity URL lists, mirroring [`rd_entities`].
pub fn parse_entities(s: &[u8], pos: usize) -> (r: Option<(Entities, usize)>)
    ensures
        r is Some <==> rd_entities(s@, pos as int) is Some,
        r matches Some((v, end)) ==> Some((v.deep_view(), end as int)) == rd_entities(
            s@,
            pos as int,
        ),
{
    let (url_urls, p1) = match parse_opt_vec_url(s, pos) {
        Some(x) => x,
        None => {
            return None;
        },
    };
    let (description_urls, end) = match parse_opt_vec_url(s, p1) {
        Some(x) => x,
        None => {
            return None;
        },
    };
    Some((Entities { url_urls, description_urls }, end))
}

/// Tagged optional entities record.
pub open spec fn enc_opt_entities(o: Option<EntitiesView>) -> Seq<u8> {
    match o {
        None => seq![0u8],
        Some(e) => seq![1u8] + enc_entities(e),
    }
}

pub open spec fn rd_opt_entities(s: Seq<u8>, pos: int) -> Option<(Option<EntitiesView>, int)> {
    match rd_bool(s, pos) {
        None => None,
        Some((present, p1)) => {
            if present {
                match rd_entities(s, p1) {
                    None => None,
                    Some((e, end)) => Some((Some(e), end)),
                }
            } else {
                Some((None, p1))
            }
        },
    }
}

pub proof fn lemma_rd_opt_entities_sound(s: Seq<u8>, pos: int)
    requires
        rd_opt_entities(s, pos) is Some,
    ensures
        ({
            let (o, end) = rd_opt_entities(s, pos)->Some_0;
            pos <= end <= s.len() && s.subrange(pos, end) == enc_opt_entities(o)
                && wf_opt_entities(o)
        }),
{
    let (o, end) = rd_opt_entities(s, pos)->Some_0;
    let (present, p1) = rd_bool(s, pos)->Some_0;
    lemma_rd_bool_sound(s, pos);
    if present {
        lemma_rd_entities_sound(s, p1);
        lemma_subrange_split(s, pos, p1, end);
        assert(s.subrange(pos, end) =~= enc_opt_entities(o));
    } else {
        assert(s.subrange(pos, end) =~= enc_opt_entities(o));
    }
}

pub proof fn lemma_rd_opt_entities_complete(s: Seq<u8>, pos: int, o: Option<EntitiesView>)
    requires
        0 <= pos,
        wf_opt_entities(o),
        pos + enc_opt_entities(o).len() <= s.len(),
        s.subrange(pos, pos + enc_opt_entities(o).len()) == enc_opt_entities(o),
    ensures
        rd_opt_entities(s, pos) == Some((o, pos + enc_opt_entities(o).len())),
{
    let e = enc_opt_entities(o);
    assert(s[pos] == e[0]);
    match o {
        None => {
            assert(rd_bool(s, pos) == Some((false, pos + 1)));
        },
        Some(ev) => {
            assert(rd_bool(s, pos) == Some((true, pos + 1)));
            assert(s.subrange(pos + 1, pos + 1 + enc_entities(ev).len()) =~= enc_entities(ev)) by {
                assert forall|i: int| 0 <= i < enc_entities(ev).len() implies s[pos + 1 + i]
                    == enc_entities(ev)[i] by {
                    assert(s.subrange(pos, pos + e.len() as int)[1 + i] == s[pos + 1 + i]);
                    assert(e[1 + i] == enc_entities(ev)[i]);
                }
            }
            lemma_rd_entities_complete(s, pos + 1, ev);
        },
    }
}

/// Writes a tagged optional entities record.
pub fn write_opt_entities(o: &Option<Entities>, out: &mut Vec<u8>)
    requires
        wf_opt_entities(o.deep_view()),
    ensures
        final(out)@ == old(out)@ + enc_opt_entities(o.deep_view()),
{
    match o {
        None => {
            write_bool(false, out);
            proof {
                assert(out@ =~= old(out)@ + enc_opt_entities(o.deep_view()));
            }
        },
        Some(e) => {
            write_bool(true, out);
            write_entities(e, out);
            proof {
                assert(out@ =~= old(out)@ + enc_opt_entities(o.deep_view()));
            }
        },
    }
}

/// Reads a tagged optional entities record, mirroring [`rd_opt_entities`].
pub fn parse_opt_entities(s: &[u8], pos: usize) -> (r: Option<(Option<Entities>, usize)>)
    ensures
        r is Some <==> rd_opt_entities(s@, pos as int) is Some,
        r matches Some((v, end)) ==> Some((v.deep_view(), end as int)) == rd_opt_entities(
            s@,
            pos as int,
        ),
{
    let (present, p1) = match parse_bool(s, pos) {
        Some(x) => x,
        None => {
            return None;
        },
    };
    if present {
        match parse_entities(s, p1) {
            Some((e, end)) => Some((Some(e), end)),
            None => None,
        }
    } else {
        Some((None, p1))
    }
}


/// A profile observation: every field of the archived record schema.
/// Textual fields are UTF-8 bytes; `snapshot` is the epoch second at which
/// the profile was observed.
#[derive(Debug, PartialEq, Eq)]
pub struct Profile {
    pub id: u64,
    pub id_str: Vec<u8>,
    pub screen_name: Vec<u8>,
    pub name: Vec<u8>,
    pub description: Option<Vec<u8>>,
    pub url: Option<Vec<u8>>,
    pub location: Option<Vec<u8>>,
    pub created_at: Vec<u8>,
    pub protected: bool,
    pub verified: bool,
    pub followers_count: u32,
    pub friends_count: u32,
    pub statuses_count: u32,
    pub favourites_count: u32,
    pub listed_count: u32,
    pub default_profile: bool,
    pub default_profile_image: bool,
    pub profile_image_url_https: Vec<u8>,
    pub withheld_in_countries: Vec<Vec<u8>>,
    pub entities: Option<Entities>,
    pub snapshot: u64,
}

/// Mathematical image of a [`Profile`].
#[verifier::ext_equal]
pub struct ProfileView {
    pub id: u64,
    pub id_str: Seq<u8>,
    pub screen_name: Seq<u8>,
    pub name: Seq<u8>,
    pub description: Option<Seq<u8>>,
    pub url: Option<Seq<u8>>,
    pub location: Option<Seq<u8>>,
    pub created_at: Seq<u8>,
    pub protected: bool,
    pub verified: bool,
    pub followers_count: u32,
    pub friends_count: u32,
    pub statuses_count: u32,
    pub favourites_count: u32,
    pub listed_count: u32,
    pub default_profile: bool,
    pub default_profile_image: bool,
    pub profile_image_url_https: Seq<u8>,
    pub withheld_in_countries: Seq<Seq<u8>>,
    pub entities: Option<EntitiesView>,
    pub snapshot: u64,
}

impl DeepView for Profile {
    type V = ProfileView;

    open spec fn deep_view(&self) -> ProfileView {
        ProfileView {
            id: self.id,
            id_str: self.id_str@,
            screen_name: self.screen_name@,
            name: self.name@,
            description: match self.description {
                Some(ref v) => Some(v@),
                None => None,
            },
            url: match self.url {
                Some(ref v) => Some(v@),
                None => None,
            },
            location: match self.location {
                Some(ref v) => Some(v@),
                None => None,
            },
            created_at: self.created_at@,
            protected: self.protected,
            verified: self.verified,
            followers_count: self.followers_count,
            friends_count: self.friends_count,
            statuses_count: self.statuses_count,
            favourites_count: self.favourites_count,
            listed_count: self.listed_count,
            default_profile: self.default_profile,
            default_profile_image: self.default_profile_image,
            profile_image_url_https: self.profile_image_url_https@,
            withheld_in_countries: self.withheld_in_countries.deep_view(),
            entities: self.entities.deep_view(),
            snapshot: self.snapshot,
        }
    }
}

/// Every variable-length field fits its length prefix.
pub open spec fn wf_profile(p: ProfileView) -> bool {
    &&& wf_bytes(p.id_str)
    &&& wf_bytes(p.screen_name)
    &&& wf_bytes(p.name)
    &&& wf_opt_bytes(p.description)
    &&& wf_opt_bytes(p.url)
    &&& wf_opt_bytes(p.location)
    &&& wf_bytes(p.created_at)
    &&& wf_bytes(p.profile_image_url_https)
    &&& wf_bytes_list(p.withheld_in_countries)
    &&& wf_opt_entities(p.entities)
}

/// Encoding of the last eleven fields of a record.
pub open spec fn enc_profile_tail(p: ProfileView) -> Seq<u8> {
    crate::codec::u32_be(p.followers_count) + (crate::codec::u32_be(p.friends_count) + (
    crate::codec::u32_be(p.statuses_count) + (crate::codec::u32_be(p.favourites_count) + (
    crate::codec::u32_be(p.listed_count) + (enc_bool(p.default_profile) + (enc_bool(
        p.default_profile_image,
    ) + (enc_bytes(p.profile_image_url_https) + (enc_vec_bytes(p.withheld_in_countries) + (
    enc_opt_entities(p.entities) + crate::codec::u64_be(p.snapshot))))))))))
}

/// The first ten fields of `p`, as a front record.
pub open spec fn front_of(p: ProfileView) -> ProfileFront {
    ProfileFront {
        id: p.id,
        id_str: p.id_str,
        screen_name: p.screen_name,
        name: p.name,
        description: p.description,
        url: p.url,
        location: p.location,
        created_at: p.created_at,
        protected: p.protected,
        verified: p.verified,
    }
}

/// Encoding of the first ten fields of a record.
pub open spec fn enc_profile_front(f: ProfileFront) -> Seq<u8> {
    crate::codec::u64_be(f.id) + (enc_bytes(f.id_str) + (enc_bytes(f.screen_name) + (enc_bytes(
        f.name,
    ) + (enc_opt_bytes(f.description) + (enc_opt_bytes(f.url) + (enc_opt_bytes(f.location) + (
    enc_bytes(f.created_at) + (enc_bool(f.protected) + enc_bool(f.verified)))))))))
}

/// The record encoding: each field in schema order.
pub open spec fn enc_profile(p: ProfileView) -> Seq<u8> {
    enc_profile_front(front_of(p)) + enc_profile_tail(p)
}

/// Reads the first ten fields of a record.
pub open spec fn rd_profile_front(s: Seq<u8>, pos: int) -> Option<(ProfileFront, int)> {
    match crate::codec::rd_u64(s, pos) {
        None => None,
        Some((id, p1)) => match rd_bytes(s, p1) {
            None => None,
            Some((id_str, p2)) => match rd_bytes(s, p2) {
                None => None,
                Some((screen_name, p3)) => match rd_bytes(s, p3) {
                    None => None,
                    Some((name, p4)) => match rd_opt_bytes(s, p4) {
                        None => None,
                        Some((description, p5)) => match rd_opt_bytes(s, p5) {
                            None => None,
                            Some((url, p6)) => match rd_opt_bytes(s, p6) {
                                None => None,
                                Some((location, p7)) => match rd_bytes(s, p7) {
                                    None => None,
                                    Some((created_at, p8)) => match rd_bool(s, p8) {
                                        None => None,
                                        Some((protected, p9)) => match rd_bool(s, p9) {
                                            None => None,
                                            Some((verified, p10)) => Some(
                                                (
                                                    ProfileFront {
                                                        id,
                                                        id_str,
                                                        screen_name,
                                                        name,
                                                        description,
                                                        url,
                                                        location,
                                                        created_at,
                                                        protected,
                                                        verified,
                                                    },
                                                    p10,
                                                ),
                                            ),
                                        },
                                    },
                                },
                            },
                        },
                    },
                },
            },
        },
    }
}

/// Reads a record, field by field.
pub open spec fn rd_profile(s: Seq<u8>, pos: int) -> Option<(ProfileView, int)> {
    match rd_profile_front(s, pos) {
        None => None,
        Some((front, p10)) => rd_profile_tail(s, p10, front),
    }
}

/// The first ten fields of a record, already read.
#[verifier::ext_equal]
pub struct ProfileFront {
    pub id: u64,
    pub id_str: Seq<u8>,
    pub screen_name: Seq<u8>,
    pub name: Seq<u8>,
    pub description: Option<Seq<u8>>,
    pub url: Option<Seq<u8>>,
    pub location: Option<Seq<u8>>,
    pub created_at: Seq<u8>,
    pub protected: bool,
    pub verified: bool,
}

/// Reads the remaining eleven fields of a record.
pub open spec fn rd_profile_tail(s: Seq<u8>, pos: int, front: ProfileFront) -> Option<
    (ProfileView, int),
> {
    match crate::codec::rd_u32(s, pos) {
        None => None,
        Some((followers_count, p11)) => match crate::codec::rd_u32(s, p11) {
            None => None,
            Some((friends_count, p12)) => match crate::codec::rd_u32(s, p12) {
                None => None,
                Some((statuses_count, p13)) => match crate::codec::rd_u32(s, p13) {
                    None => None,
                    Some((favourites_count, p14)) => match crate::codec::rd_u32(s, p14) {
                        None => None,
                        Some((listed_count, p15)) => match rd_bool(s, p15) {
                            None => None,
                            Some((default_profile, p16)) => match rd_bool(s, p16) {
                                None => None,
                                Some((default_profile_image, p17)) => match rd_bytes(s, p17) {
                                    None => None,
                                    Some((profile_image_url_https, p18)) => match rd_vec_bytes(
                                        s,
                                        p18,
                                    ) {
                                        None => None,
                                        Some((withheld_in_countries, p19)) => match rd_opt_entities(
                                            s,
                                            p19,
                                        ) {
                                            None => None,
                                            Some((entities, p20)) => match crate::codec::rd_u64(
                                                s,
                                                p20,
                                            ) {
                                                None => None,
                                                Some((snapshot, end)) => Some(
                                                    (
                                                        ProfileView {
                                                            id: front.id,
                                                            id_str: front.id_str,
                                                            screen_name: front.screen_name,
                                                            name: front.name,
                                                            description: front.description,
                                                            url: front.url,
                                                            location: front.location,
                                                            created_at: front.created_at,
                                                            protected: front.protected,
                                                            verified: front.verified,
                                                            followers_count,
                                                            friends_count,
                                                            statuses_count,
                                                            favourites_count,
                                                            listed_count,
                                                            default_profile,
                                                            default_profile_image,
                                                            profile_image_url_https,
                                                            withheld_in_countries,
                                                            entities,
                                                            snapshot,
                                                        },
                                                        end,
                                                    ),
                                                ),
                                            },
                                        },
                                    },
                                },
                            },
                        },
                    },
                },
            },
        },
    }
}


pub proof fn lemma_rd_profile_tail_sound(s: Seq<u8>, pos: int, front: ProfileFront)
    requires
        rd_profile_tail(s, pos, front) is Some,
        0 <= pos <= s.len(),
    ensures
        ({
            let (v, end) = rd_profile_tail(s, pos, front)->Some_0;
            &&& pos <= end <= s.len()
            &&& s.subrange(pos, end) == enc_profile_tail(v)
            &&& v.id == front.id
            &&& v.id_str == front.id_str
            &&& v.screen_name == front.screen_name
            &&& v.name == front.name
            &&& v.description == front.description
            &&& v.url == front.url
            &&& v.location == front.location
            &&& v.created_at == front.created_at
            &&& v.protected == front.protected
            &&& v.verified == front.verified
            &&& wf_bytes(v.profile_image_url_https)
            &&& wf_bytes_list(v.withheld_in_countries)
            &&& wf_opt_entities(v.entities)
        }),
{
    let (g11, p11) = crate::codec::rd_u32(s, pos)->Some_0;
    let (g12, p12) = crate::codec::rd_u32(s, p11)->Some_0;
    let (g13, p13) = crate::codec::rd_u32(s, p12)->Some_0;
    let (g14, p14) = crate::codec::rd_u32(s, p13)->Some_0;
    let (g15, p15) = crate::codec::rd_u32(s, p14)->Some_0;
    let (g16, p16) = rd_bool(s, p15)->Some_0;
    let (g17, p17) = rd_bool(s, p16)->Some_0;
    let (g18, p18) = rd_bytes(s, p17)->Some_0;
    let (g19, p19) = rd_vec_bytes(s, p18)->Some_0;
    let (g20, p20) = rd_opt_entities(s, p19)->Some_0;
    let (g21, end) = crate::codec::rd_u64(s, p20)->Some_0;
    crate::codec::lemma_rd_u32_sound(s, pos);
    crate::codec::lemma_rd_u32_sound(s, p11);
    crate::codec::lemma_rd_u32_sound(s, p12);
    crate::codec::lemma_rd_u32_sound(s, p13);
    crate::codec::lemma_rd_u32_sound(s, p14);
    lemma_rd_bool_sound(s, p15);
    lemma_rd_bool_sound(s, p16);
    lemma_rd_bytes_sound(s, p17);
    lemma_rd_vec_bytes_sound(s, p18);
    lemma_rd_opt_entities_sound(s, p19);
    crate::codec::lemma_rd_u64_sound(s, p20);
    lemma_subrange_split(s, p19, p20, end);
    lemma_subrange_split(s, p18, p19, end);
    lemma_subrange_split(s, p17, p18, end);
    lemma_subrange_split(s, p16, p17, end);
    lemma_subrange_split(s, p15, p16, end);
    lemma_subrange_split(s, p14, p15, end);
    lemma_subrange_split(s, p13, p14, end);
    lemma_subrange_split(s, p12, p13, end);
    lemma_subrange_split(s, p11, p12, end);
    lemma_subrange_split(s, pos, p11, end);
}

pub proof fn lemma_rd_profile_front_sound(s: Seq<u8>, pos: int)
    requires
        rd_profile_front(s, pos) is Some,
        0 <= pos <= s.len(),
    ensures
        ({
            let (f, p10) = rd_profile_front(s, pos)->Some_0;
            &&& pos <= p10 <= s.len()
            &&& s.subrange(pos, p10) == enc_profile_front(f)
            &&& wf_bytes(f.id_str)
            &&& wf_bytes(f.screen_name)
            &&& wf_bytes(f.name)
            &&& wf_opt_bytes(f.description)
            &&& wf_opt_bytes(f.url)
            &&& wf_opt_bytes(f.location)
            &&& wf_bytes(f.created_at)
        }),
{
    let (f1, p1) = crate::codec::rd_u64(s, pos)->Some_0;
    let (f2, p2) = rd_bytes(s, p1)->Some_0;
    let (f3, p3) = rd_bytes(s, p2)->Some_0;
    let (f4, p4) = rd_bytes(s, p3)->Some_0;
    let (f5, p5) = rd_opt_bytes(s, p4)->Some_0;
    let (f6, p6) = rd_opt_bytes(s, p5)->Some_0;
    let (f7, p7) = rd_opt_bytes(s, p6)->Some_0;
    let (f8, p8) = rd_bytes(s, p7)->Some_0;
    let (f9, p9) = rd_bool(s, p8)->Some_0;
    let (f10, p10) = rd_bool(s, p9)->Some_0;
    crate::codec::lemma_rd_u64_sound(s, pos);
    lemma_rd_bytes_sound(s, p1);
    lemma_rd_bytes_sound(s, p2);
    lemma_rd_bytes_sound(s, p3);
    lemma_rd_opt_bytes_sound(s, p4);
    lemma_rd_opt_bytes_sound(s, p5);
    lemma_rd_opt_bytes_sound(s, p6);
    lemma_rd_bytes_sound(s, p7);
    lemma_rd_bool_sound(s, p8);
    lemma_rd_bool_sound(s, p9);
    lemma_subrange_split(s, p8, p9, p10);
    lemma_subrange_split(s, p7, p8, p10);
    lemma_subrange_split(s, p6, p7, p10);
    lemma_subrange_split(s, p5, p6, p10);
    lemma_subrange_split(s, p4, p5, p10);
    lemma_subrange_split(s, p3, p4, p10);
    lemma_subrange_split(s, p2, p3, p10);
    lemma_subrange_split(s, p1, p2, p10);
    lemma_subrange_split(s, pos, p1, p10);
}

pub proof fn lemma_rd_profile_sound(s: Seq<u8>, pos: int)
    requires
        rd_profile(s, pos) is Some,
        0 <= pos <= s.len(),
    ensures
        ({
            let (v, end) = rd_profile(s, pos)->Some_0;
            pos <= end <= s.len() && s.subrange(pos, end) == enc_profile(v) && wf_profile(v)
        }),
{
    let (front, p10) = rd_profile_front(s, pos)->Some_0;
    lemma_rd_profile_front_sound(s, pos);
    lemma_rd_profile_tail_sound(s, p10, front);
    let (v, end) = rd_profile_tail(s, p10, front)->Some_0;
    lemma_subrange_split(s, pos, p10, end);
    assert(front_of(v) =~= front);
}

#[verifier::rlimit(100)]
#[verifier::spinoff_prover]
pub proof fn lemma_rd_profile_front_complete(s: Seq<u8>, pos: int, f: ProfileFront)
    requires
        0 <= pos,
        wf_bytes(f.id_str),
        wf_bytes(f.screen_name),
        wf_bytes(f.name),
        wf_opt_bytes(f.description),
        wf_opt_bytes(f.url),
        wf_opt_bytes(f.location),
        wf_bytes(f.created_at),
        pos + enc_profile_front(f).len() <= s.len(),
        s.subrange(pos, pos + enc_profile_front(f).len()) == enc_profile_front(f),
    ensures
        rd_profile_front(s, pos) == Some((f, pos + enc_profile_front(f).len())),
{
    let e1 = crate::codec::u64_be(f.id);
    let e2 = enc_bytes(f.id_str);
    let e3 = enc_bytes(f.screen_name);
    let e4 = enc_bytes(f.name);
    let e5 = enc_opt_bytes(f.description);
    let e6 = enc_opt_bytes(f.url);
    let e7 = enc_opt_bytes(f.location);
    let e8 = enc_bytes(f.created_at);
    let e9 = enc_bool(f.protected);
    let e10 = enc_bool(f.verified);
    let r10 = e10;
    let r9 = e9 + r10;
    let r8 = e8 + r9;
    let r7 = e7 + r8;
    let r6 = e6 + r7;
    let r5 = e5 + r6;
    let r4 = e4 + r5;
    let r3 = e3 + r4;
    let r2 = e2 + r3;
    let r1 = e1 + r2;
    assert(enc_profile_front(f) == r1);
    let p1 = pos + e1.len();
    lemma_prefix_parts(s, pos, e1, r2);
    crate::codec::lemma_rd_u64_complete(s, pos, f.id);
    let p2 = p1 + e2.len();
    lemma_prefix_parts(s, p1, e2, r3);
    lemma_rd_bytes_complete(s, p1, f.id_str);
    let p3 = p2 + e3.len();
    lemma_prefix_parts(s, p2, e3, r4);
    lemma_rd_bytes_complete(s, p2, f.screen_name);
    let p4 = p3 + e4.len();
    lemma_prefix_parts(s, p3, e4, r5);
    lemma_rd_bytes_complete(s, p3, f.name);
    let p5 = p4 + e5.len();
    lemma_prefix_parts(s, p4, e5, r6);
    lemma_rd_opt_bytes_complete(s, p4, f.description);
    let p6 = p5 + e6.len();
    lemma_prefix_parts(s, p5, e6, r7);
    lemma_rd_opt_bytes_complete(s, p5, f.url);
    let p7 = p6 + e7.len();
    lemma_prefix_parts(s, p6, e7, r8);
    lemma_rd_opt_bytes_complete(s, p6, f.location);
    let p8 = p7 + e8.len();
    lemma_prefix_parts(s, p7, e8, r9);
    lemma_rd_bytes_complete(s, p7, f.created_at);
    let p9 = p8 + e9.len();
    lemma_prefix_parts(s, p8, e9, r10);
    lemma_rd_bool_complete(s, p8, f.protected);
    lemma_rd_bool_complete(s, p9, f.verified);
    let (built, end) = rd_profile_front(s, pos)->Some_0;
    assert(built =~= f);
}

#[verifier::rlimit(100)]
#[verifier::spinoff_prover]
pub proof fn lemma_rd_profile_tail_complete(s: Seq<u8>, pos: int, v: ProfileView, front: ProfileFront)
    requires
        0 <= pos,
        wf_profile(v),
        front.id == v.id,
        front.id_str == v.id_str,
        front.screen_name == v.screen_name,
        front.name == v.name,
        front.description == v.description,
        front.url == v.url,
        front.location == v.location,
        front.created_at == v.created_at,
        front.protected == v.protected,
        front.verified == v.verified,
        pos + enc_profile_tail(v).len() <= s.len(),
        s.subrange(pos, pos + enc_profile_tail(v).len()) == enc_profile_tail(v),
    ensures
        rd_profile_tail(s, pos, front) == Some((v, pos + enc_profile_tail(v).len())),
{
    let e11 = crate::codec::u32_be(v.followers_count);
    let e12 = crate::codec::u32_be(v.friends_count);
    let e13 = crate::codec::u32_be(v.statuses_count);
    let e14 = crate::codec::u32_be(v.favourites_count);
    let e15 = crate::codec::u32_be(v.listed_count);
    let e16 = enc_bool(v.default_profile);
    let e17 = enc_bool(v.default_profile_image);
    let e18 = enc_bytes(v.profile_image_url_https);
    let e19 = enc_vec_bytes(v.withheld_in_countries);
    let e20 = enc_opt_entities(v.entities);
    let e21 = crate::codec::u64_be(v.snapshot);
    let r21 = e21;
    let r20 = e20 + r21;
    let r19 = e19 + r20;
    let r18 = e18 + r19;
    let r17 = e17 + r18;
    let r16 = e16 + r17;
    let r15 = e15 + r16;
    let r14 = e14 + r15;
    let r13 = e13 + r14;
    let r12 = e12 + r13;
    let r11 = e11 + r12;
    assert(enc_profile_tail(v) == r11);
    let p11 = pos + e11.len();
    lemma_prefix_parts(s, pos, e11, r12);
    crate::codec::lemma_rd_u32_complete(s, pos, v.followers_count);
    let p12 = p11 + e12.len();
    lemma_prefix_parts(s, p11, e12, r13);
    crate::codec::lemma_rd_u32_complete(s, p11, v.friends_count);
    let p13 = p12 + e13.len();
    lemma_prefix_parts(s, p12, e13, r14);
    crate::codec::lemma_rd_u32_complete(s, p12, v.statuses_count);
    let p14 = p13 + e14.len();
    lemma_prefix_parts(s, p13, e14, r15);
    crate::codec::lemma_rd_u32_complete(s, p13, v.favourites_count);
    let p15 = p14 + e15.len();
    lemma_prefix_parts(s, p14, e15, r16);
    crate::codec::lemma_rd_u32_complete(s, p14, v.listed_count);
    let p16 = p15 + e16.len();
    lemma_prefix_parts(s, p15, e16, r17);
    lemma_rd_bool_complete(s, p15, v.default_profile);
    let p17 = p16 + e17.len();
    lemma_prefix_parts(s, p16, e17, r18);
    lemma_rd_bool_complete(s, p16, v.default_profile_image);
    let p18 = p17 + e18.len();
    lemma_prefix_parts(s, p17, e18, r19);
    lemma_rd_bytes_complete(s, p17, v.profile_image_url_https);
    let p19 = p18 + e19.len();
    lemma_prefix_parts(s, p18, e19, r20);
    lemma_rd_vec_bytes_complete(s, p18, v.withheld_in_countries);
    let p20 = p19 + e20.len();
    lemma_prefix_parts(s, p19, e20, r21);
    lemma_rd_opt_entities_complete(s, p19, v.entities);
    crate::codec::lemma_rd_u64_complete(s, p20, v.snapshot);
    let (built, end) = rd_profile_tail(s, pos, front)->Some_0;
    assert(built =~= v);
}

#[verifier::rlimit(100)]
#[verifier::spinoff_prover]
pub proof fn lemma_rd_profile_complete(s: Seq<u8>, pos: int, v: ProfileView)
    requires
        0 <= pos,
        wf_profile(v),
        pos + enc_profile(v).len() <= s.len(),
        s.subrange(pos, pos + enc_profile(v).len()) == enc_profile(v),
    ensures
        rd_profile(s, pos) == Some((v, pos + enc_profile(v).len())),
{
    let front = front_of(v);
    let e1 = enc_profile_front(front);
    let e2 = enc_profile_tail(v);
    lemma_prefix_parts(s, pos, e1, e2);
    lemma_rd_profile_front_complete(s, pos, front);
    lemma_rd_profile_tail_complete(s, pos + e1.len(), v, front);
}

/// Writes the first ten fields of a record.
#[verifier::rlimit(100)]
fn write_profile_front(p: &Profile, out: &mut Vec<u8>)
    requires
        wf_profile(p.deep_view()),
    ensures
        final(out)@ == old(out)@ + enc_profile_front(front_of(p.deep_view())),
{
    crate::codec::write_u64_be(p.id, out);
    write_bytes(&p.id_str, out);
    write_bytes(&p.screen_name, out);
    write_bytes(&p.name, out);
    write_opt_bytes(&p.description, out);
    write_opt_bytes(&p.url, out);
    write_opt_bytes(&p.location, out);
    write_bytes(&p.created_at, out);
    write_bool(p.protected, out);
    write_bool(p.verified, out);
    proof {
        let v = p.deep_view();
        crate::codec::lemma_assoc_10(
            old(out)@,
            crate::codec::u64_be(v.id),
            enc_bytes(v.id_str),
            enc_bytes(v.screen_name),
            enc_bytes(v.name),
            enc_opt_bytes(v.description),
            enc_opt_bytes(v.url),
            enc_opt_bytes(v.location),
            enc_bytes(v.created_at),
            enc_bool(v.protected),
            enc_bool(v.verified),
        );
    }
}

/// Writes the last eleven fields of a record.
#[verifier::rlimit(100)]
fn write_profile_tail(p: &Profile, out: &mut Vec<u8>)
    requires
        wf_profile(p.deep_view()),
    ensures
        final(out)@ == old(out)@ + enc_profile_tail(p.deep_view()),
{
    crate::codec::write_u32_be(p.followers_count, out);
    crate::codec::write_u32_be(p.friends_count, out);
    crate::codec::write_u32_be(p.statuses_count, out);
    crate::codec::write_u32_be(p.favourites_count, out);
    crate::codec::write_u32_be(p.listed_count, out);
    write_bool(p.default_profile, out);
    write_bool(p.default_profile_image, out);
    write_bytes(&p.profile_image_url_https, out);
    write_vec_bytes(&p.withheld_in_countries, out);
    write_opt_entities(&p.entities, out);
    crate::codec::write_u64_be(p.snapshot, out);
    proof {
        assert(out@ =~= old(out)@ + enc_profile_tail(p.deep_view()));
    }
}

/// Encodes a profile record.
pub fn encode(p: &Profile) -> (r: Vec<u8>)
    requires
        wf_profile(p.deep_view()),
    ensures
        r@ == enc_profile(p.deep_view()),
{
    let mut out: Vec<u8> = Vec::new();
    write_profile_front(p, &mut out);
    write_profile_tail(p, &mut out);
    proof {
        assert(out@ =~= enc_profile(p.deep_view()));
    }
    out
}

/// Reads a record, mirroring [`rd_profile`].
pub fn parse_profile(s: &[u8], pos: usize) -> (r: Option<(Profile, usize)>)
    ensures
        r is Some <==> rd_profile(s@, pos as int) is Some,
        r matches Some((v, end)) ==> Some((v.deep_view(), end as int)) == rd_profile(
            s@,
            pos as int,
        ),
{
    let (id, p1) = match crate::codec::parse_u64_be(s, pos) {
        Some(x) => x,
        None => {
            return None;
        },
    };
    let (id_str, p2) = match parse_bytes(s, p1) {
        Some(x) => x,
        None => {
            return None;
        },
    };
    let (screen_name, p3) = match parse_bytes(s, p2) {
        Some(x) => x,
        None => {
            return None;
        },
    };
    let (name, p4) = match parse_bytes(s, p3) {
        Some(x) => x,
        None => {
            return None;
        },
    };
    let (description, p5) = match parse_opt_bytes(s, p4) {
        Some(x) => x,
        None => {
            return None;
        },
    };
    let (url, p6) = match parse_opt_bytes(s, p5) {
        Some(x) => x,
        None => {
            return None;
        },
    };
    let (location, p7) = match parse_opt_bytes(s, p6) {
        Some(x) => x,
        None => {
            return None;
        },
    };
    let (created_at, p8) = match parse_bytes(s, p7) {
        Some(x) => x,
        None => {
            return None;
        },
    };
    let (protected, p9) = match parse_bool(s, p8) {
        Some(x) => x,
        None => {
            return None;
        },
    };
    let (verified, p10) = match parse_bool(s, p9) {
        Some(x) => x,
        None => {
            return None;
        },
    };
    let (followers_count, p11) = match crate::codec::parse_u32_be(s, p10) {
        Some(x) => x,
        None => {
            return None;
        },
    };
    let (friends_count, p12) = match crate::codec::parse_u32_be(s, p11) {
        Some(x) => x,
        None => {
            return None;
        },
    };
    let (statuses_count, p13) = match crate::codec::parse_u32_be(s, p12) {
        Some(x) => x,
        None => {
            return None;
        },
    };
    let (favourites_count, p14) = match crate::codec::parse_u32_be(s, p13) {
        Some(x) => x,
        None => {
            return None;
        },
    };
    let (listed_count, p15) = match crate::codec::parse_u32_be(s, p14) {
        Some(x) => x,
        None => {
            return None;
        },
    };
    let (default_profile, p16) = match parse_bool(s, p15) {
        Some(x) => x,
        None => {
            return None;
        },
    };
    let (default_profile_image, p17) = match parse_bool(s, p16) {
        Some(x) => x,
        None => {
            return None;
        },
    };
    let (profile_image_url_https, p18) = match parse_bytes(s, p17) {
        Some(x) => x,
        None => {
            return None;
        },
    };
    let (withheld_in_countries, p19) = match parse_vec_bytes(s, p18) {
        Some(x) => x,
        None => {
            return None;
        },
    };
    let (entities, p20) = match parse_opt_entities(s, p19) {
        Some(x) => x,
        None => {
            return None;
        },
    };
    let (snapshot, end) = match crate::codec::parse_u64_be(s, p20) {
        Some(x) => x,
        None => {
            return None;
        },
    };
    let result = Profile {
        id,
        id_str,
        screen_name,
        name,
        description,
        url,
        location,
        created_at,
        protected,
        verified,
        followers_count,
        friends_count,
        statuses_count,
        favourites_count,
        listed_count,
        default_profile,
        default_profile_image,
        profile_image_url_https,
        withheld_in_countries,
        entities,
        snapshot,
    };
    proof {
        let (v, e) = rd_profile(s@, pos as int)->Some_0;
        assert(result.deep_view() =~= v);
    }
    Some((result, end))
}

/// A whole buffer that is the encoding of a well-formed profile parses to
/// exactly that profile.
pub proof fn lemma_enc_profile_parses(s: Seq<u8>, pv: ProfileView)
    requires
        wf_profile(pv),
        s == enc_profile(pv),
    ensures
        rd_profile(s, 0) == Some((pv, s.len() as int)),
{
    assert(s.subrange(0, enc_profile(pv).len() as int) =~= s);
    lemma_rd_profile_complete(s, 0, pv);
}

/// The one decoding failure: the bytes are not an encoded record.
#[derive(Clone, Copy, PartialEq, Eq, Debug)]
pub enum CodecError {
    Malformed,
}

/// Decodes a record. Succeeds exactly on the encodings of well-formed
/// profiles, and then returns the profile encoded.
pub fn decode(s: &[u8]) -> (r: Result<Profile, CodecError>)
    ensures
        r matches Ok(p) ==> wf_profile(p.deep_view()) && s@ == enc_profile(p.deep_view()),
        forall|pv: ProfileView| wf_profile(pv) && s@ == enc_profile(pv) ==> r is Ok
            && r->Ok_0.deep_view() == pv,
{
    match parse_profile(s, 0) {
        Some((p, end)) => {
            if end == s.len() {
                proof {
                    lemma_rd_profile_sound(s@, 0);
                    assert(s@.subrange(0, end as int) =~= s@);
                    assert forall|pv: ProfileView|
                        wf_profile(pv) && s@ == enc_profile(pv) implies p.deep_view() == pv by {
                        lemma_enc_profile_parses(s@, pv);
                    }
                }
                Ok(p)
            } else {
                proof {
                    lemma_rd_profile_sound(s@, 0);
                    assert forall|pv: ProfileView|
                        wf_profile(pv) && s@ == enc_profile(pv) implies false by {
                        lemma_enc_profile_parses(s@, pv);
                    }
                }
                Err(CodecError::Malformed)
            }
        },
        None => {
            proof {
                assert forall|pv: ProfileView|
                    wf_profile(pv) && s@ == enc_profile(pv) implies false by {
                    lemma_enc_profile_parses(s@, pv);
                }
            }
            Err(CodecError::Malformed)
        },
    }
}


/// Copies a byte string.
pub fn copy_bytes(v: &Vec<u8>) -> (r: Vec<u8>)
    ensures
        r@ == v@,
{
    let mut r: Vec<u8> = Vec::new();
    let mut i: usize = 0;
    while i < v.len()
        invariant
            0 <= i <= v.len(),
            r@ == v@.subrange(0, i as int),
        decreases v.len() - i,
    {
        r.push(v[i]);
        i = i + 1;
        proof {
            assert(r@ =~= v@.subrange(0, i as int));
        }
    }
    proof {
        assert(v@.subrange(0, v@.len() as int) =~= v@);
    }
    r
}

/// Copies an optional byte string.
pub fn copy_opt_bytes(v: &Option<Vec<u8>>) -> (r: Option<Vec<u8>>)
    ensures
        (r is Some <==> v is Some),
        r matches Some(b) ==> b@ == v->Some_0@,
{
    match v {
        None => None,
        Some(b) => Some(copy_bytes(b)),
    }
}


/// Copies a list of byte strings.
pub fn copy_bytes_list(v: &Vec<Vec<u8>>) -> (r: Vec<Vec<u8>>)
    ensures
        r.deep_view() == v.deep_view(),
{
    let mut r: Vec<Vec<u8>> = Vec::new();
    let mut i: usize = 0;
    while i < v.len()
        invariant
            0 <= i <= v.len(),
            r@.len() == i,
            forall|j: int| 0 <= j < i ==> r@[j]@ == v@[j]@,
        decreases v.len() - i,
    {
        r.push(copy_bytes(&v[i]));
        i = i + 1;
    }
    proof {
        assert forall|j: int| 0 <= j < v@.len() implies r.deep_view()[j] =~~= v.deep_view()[j] by {
            assert(r@[j]@ == v@[j]@);
        }
        assert(r.deep_view() =~~= v.deep_view());
    }
    r
}

/// Copies a URL entry list.
fn copy_url_list(v: &Vec<UrlEntry>) -> (r: Vec<UrlEntry>)
    ensures
        r.deep_view() == v.deep_view(),
{
    let mut r: Vec<UrlEntry> = Vec::new();
    let mut i: usize = 0;
    while i < v.len()
        invariant
            0 <= i <= v.len(),
            r@.len() == i,
            forall|j: int| 0 <= j < i ==> #[trigger] r@[j].deep_view() == v@[j].deep_view(),
        decreases v.len() - i,
    {
        let e = UrlEntry { url: copy_bytes(&v[i].url), expanded: copy_opt_bytes(&v[i].expanded) };
        proof {
            assert(e.deep_view() =~= v@[i as int].deep_view());
        }
        r.push(e);
        i = i + 1;
    }
    proof {
        assert forall|j: int| 0 <= j < v@.len() implies r.deep_view()[j] =~~= v.deep_view()[j] by {
            assert(r@[j].deep_view() == v@[j].deep_view());
        }
        assert(r.deep_view() =~~= v.deep_view());
    }
    r
}

/// Copies the entity URL lists.
fn copy_entities(v: &Entities) -> (r: Entities)
    ensures
        r.deep_view() == v.deep_view(),
{
    let url_urls = match &v.url_urls {
        None => None,
        Some(l) => Some(copy_url_list(l)),
    };
    let description_urls = match &v.description_urls {
        None => None,
        Some(l) => Some(copy_url_list(l)),
    };
    let r = Entities { url_urls, description_urls };
    proof {
        assert(r.deep_view() =~~= v.deep_view());
    }
    r
}

/// Copies a profile record.
pub fn clone_profile(p: &Profile) -> (r: Profile)
    ensures
        r.deep_view() == p.deep_view(),
{
    let r = Profile {
        id: p.id,
        id_str: copy_bytes(&p.id_str),
        screen_name: copy_bytes(&p.screen_name),
        name: copy_bytes(&p.name),
        description: copy_opt_bytes(&p.description),
        url: copy_opt_bytes(&p.url),
        location: copy_opt_bytes(&p.location),
        created_at: copy_bytes(&p.created_at),
        protected: p.protected,
        verified: p.verified,
        followers_count: p.followers_count,
        friends_count: p.friends_count,
        statuses_count: p.statuses_count,
        favourites_count: p.favourites_count,
        listed_count: p.listed_count,
        default_profile: p.default_profile,
        default_profile_image: p.default_profile_image,
        profile_image_url_https: copy_bytes(&p.profile_image_url_https),
        withheld_in_countries: copy_bytes_list(&p.withheld_in_countries),
        entities: match &p.entities {
            None => None,
            Some(e) => Some(copy_entities(e)),
        },
        snapshot: p.snapshot,
    };
    proof {
        assert(r.deep_view() =~~= p.deep_view());
    }
    r
}

} // verus!
