//! File enumeration: which walked entries a scan takes.
//!
//! The directory walk itself is the front end's job; it hands this module
//! the entries it saw, in traversal order, each as a display path, a file
//! name and a file/directory flag.  This module owns the selection rule:
//! a root that is itself a regular file is always taken, bypassing any
//! filter; under a directory root, a regular file is taken when no filter
//! is set, or when its extension — the part of its name after the last
//! dot — equals one of the filter's extensions ASCII-case-insensitively.
//! A name without any dot has no extension and is excluded whenever a
//! filter is active.

use vstd::prelude::*;

verus! {

/// One entry a directory walk produced.
pub struct FsEntry {
    pub path: String,
    pub name: Vec<u8>,
    pub is_file: bool,
}

/// The mathematical shadow of an `FsEntry`.
pub struct EntryModel {
    pub path: Seq<char>,
    pub name: Seq<u8>,
    pub is_file: bool,
}

impl View for FsEntry {
    type V = EntryModel;

    open spec fn view(&self) -> EntryModel {
        EntryModel { path: self.path@, name: self.name@, is_file: self.is_file }
    }
}

impl DeepView for FsEntry {
    type V = EntryModel;

    open spec fn deep_view(&self) -> EntryModel {
        self.view()
    }
}

/// Index of the last dot in `name`, or `-1` when there is none.
pub open spec fn last_dot(name: Seq<u8>) -> int
    decreases name.len(),
{
    if name.len() == 0 {
        -1
    } else if name[name.len() - 1] == 0x2e {
        name.len() - 1
    } else {
        last_dot(name.drop_last())
    }
}

/// The extension of a file name: what follows the last dot, absent only
/// when the name holds no dot at all.
pub open spec fn ext_of(name: Seq<u8>) -> Option<Seq<u8>> {
    let k = last_dot(name);
    if k >= 0 {
        Some(name.subrange(k + 1, name.len() as int))
    } else {
        None
    }
}

/// An uppercase ASCII letter folded to lowercase; all else unchanged.
pub open spec fn fold_byte(b: u8) -> u8 {
    if 0x41 <= b <= 0x5a {
        (b + 0x20) as u8
    } else {
        b
    }
}

/// Bytewise ASCII-case-insensitive equality.
pub open spec fn eq_ignore_ascii_case(a: Seq<u8>, b: Seq<u8>) -> bool {
    a.len() == b.len() && forall|k: int|
        0 <= k < a.len() ==> fold_byte(#[trigger] a[k]) == fold_byte(b[k])
}

/// Whether any filter extension equals `e` ASCII-case-insensitively.
pub open spec fn some_ext_matches(exts: Seq<Seq<u8>>, e: Seq<u8>) -> bool {
    exists|k: int| 0 <= k < exts.len() && eq_ignore_ascii_case(#[trigger] exts[k], e)
}

/// Whether a file named `name` passes the extension filter.
pub open spec fn name_included(name: Seq<u8>, filter: Option<Seq<Seq<u8>>>) -> bool {
    match filter {
        None => true,
        Some(exts) => match ext_of(name) {
            Some(e) => some_ext_matches(exts, e),
            None => false,
        },
    }
}

/// The filter as a mathematical value.
pub open spec fn filter_model(filter: &Option<Vec<Vec<u8>>>) -> Option<Seq<Seq<u8>>> {
    match *filter {
        Some(exts) => Some(exts.deep_view()),
        None => None,
    }
}

/// The paths taken from a directory walk, in traversal order.
pub open spec fn gathered(entries: Seq<EntryModel>, filter: Option<Seq<Seq<u8>>>) -> Seq<Seq<char>>
    decreases entries.len(),
{
    if entries.len() == 0 {
        Seq::empty()
    } else {
        let rest = gathered(entries.drop_first(), filter);
        if entries[0].is_file && name_included(entries[0].name, filter) {
            seq![entries[0].path] + rest
        } else {
            rest
        }
    }
}

proof fn lemma_gathered_push(entries: Seq<EntryModel>, x: EntryModel, filter: Option<Seq<Seq<u8>>>)
    ensures
        gathered(entries.push(x), filter) == gathered(entries, filter) + (if x.is_file
            && name_included(x.name, filter) {
            seq![x.path]
        } else {
            Seq::empty()
        }),
    decreases entries.len(),
{
    if entries.len() == 0 {
        assert(entries.push(x)[0] == x);
        assert(entries.push(x).drop_first() =~= entries);
        assert(gathered(entries.push(x), filter) =~= gathered(entries, filter) + (if x.is_file
            && name_included(x.name, filter) {
            seq![x.path]
        } else {
            Seq::empty()
        }));
    } else {
        assert(entries.push(x).drop_first() =~= entries.drop_first().push(x));
        assert(entries.push(x)[0] == entries[0]);
        lemma_gathered_push(entries.drop_first(), x, filter);
        assert(gathered(entries.push(x), filter) =~= gathered(entries, filter) + (if x.is_file
            && name_included(x.name, filter) {
            seq![x.path]
        } else {
            Seq::empty()
        }));
    }
}

/// Start of the extension within `name`, if the name has one.
fn extension_start(name: &[u8]) -> (r: Option<usize>)
    ensures
        match r {
            Some(st) => 0 < st <= name@.len() && last_dot(name@) == st - 1,
            None => last_dot(name@) < 0,
        },
{
    let mut k: usize = name.len();
    proof {
        assert(name@.take(name@.len() as int) =~= name@);
    }
    loop
        invariant
            k <= name@.len(),
            last_dot(name@) == last_dot(name@.take(k as int)),
        decreases k,
    {
        if k == 0 {
            return None;
        }
        if name[k - 1] == 0x2e {
            proof {
                assert(name@.take(k as int).len() == k);
                assert(name@.take(k as int)[k - 1] == name@[k as int - 1]);
            }
            return Some(k);
        }
        proof {
            assert(name@.take(k as int)[k - 1] == name@[k as int - 1]);
            assert(name@.take(k as int).drop_last() =~= name@.take(k as int - 1));
        }
        k = k - 1;
    }
}

/// Whether `ext` equals `name[st..]` ASCII-case-insensitively.
fn ext_matches_at(ext: &[u8], name: &[u8], st: usize) -> (r: bool)
    requires
        st <= name@.len(),
    ensures
        r == eq_ignore_ascii_case(ext@, name@.subrange(st as int, name@.len() as int)),
{
    let ghost tail = name@.subrange(st as int, name@.len() as int);
    if ext.len() != name.len() - st {
        return false;
    }
    let mut k: usize = 0;
    while k < ext.len()
        invariant
            k <= ext@.len(),
            name@.len() <= usize::MAX,
            ext@.len() == tail.len(),
            st + ext@.len() <= name@.len(),
            tail == name@.subrange(st as int, name@.len() as int),
            forall|m: int| 0 <= m < k ==> fold_byte(#[trigger] ext@[m]) == fold_byte(tail[m]),
        decreases ext@.len() - k,
    {
        let a = ext[k];
        let b = name[st + k];
        proof {
            assert(tail[k as int] == name@[st + k as int]);
        }
        let fa = if a >= 0x41 && a <= 0x5a {
            a + 0x20
        } else {
            a
        };
        let fb = if b >= 0x41 && b <= 0x5a {
            b + 0x20
        } else {
            b
        };
        if fa != fb {
            return false;
        }
        k = k + 1;
    }
    true
}

/// The selection predicate on one file name: decoupled from the walk so it
/// can be judged against a synthetic entry list.
pub fn file_included(name: &[u8], filter: &Option<Vec<Vec<u8>>>) -> (r: bool)
    ensures
        r == name_included(name@, filter_model(filter)),
{
    match filter {
        None => true,
        Some(exts) => {
            match extension_start(name) {
                Some(st) => {
                    let ghost e = name@.subrange(st as int, name@.len() as int);
                    proof {
                        assert(ext_of(name@) == Some(e));
                    }
                    let mut k: usize = 0;
                    proof {
                        assert(filter_model(filter) == Some((*exts).deep_view()));
                    }
                    while k < exts.len()
                        invariant
                            k <= exts@.len(),
                            filter_model(filter) == Some((*exts).deep_view()),
                            st <= name@.len(),
                            e == name@.subrange(st as int, name@.len() as int),
                            ext_of(name@) == Some(e),
                            forall|m: int|
                                0 <= m < k ==> !eq_ignore_ascii_case(
                                    #[trigger] (*exts).deep_view()[m],
                                    e,
                                ),
                        decreases exts@.len() - k,
                    {
                        proof {
                            assert((*exts).deep_view().len() == exts@.len());
                        }
                        if ext_matches_at(exts[k].as_slice(), name, st) {
                            proof {
                                assert((*exts).deep_view()[k as int] =~= exts@[k as int]@);
                                assert(eq_ignore_ascii_case((*exts).deep_view()[k as int], e));
                                assert(some_ext_matches((*exts).deep_view(), e));
                                assert(name_included(name@, filter_model(filter)));
                            }
                            return true;
                        }
                        proof {
                            assert((*exts).deep_view()[k as int] =~= exts@[k as int]@);
                        }
                        k = k + 1;
                    }
                    proof {
                        assert(!some_ext_matches((*exts).deep_view(), e));
                    }
                    false
                },
                None => {
                    proof {
                        assert(ext_of(name@) is None);
                    }
                    false
                },
            }
        },
    }
}

/// Selects the files a scan will read.  A root that is itself a regular
/// file is returned alone, unconditionally — the extension filter is
/// bypassed.  Under a directory root, the walked entries are kept in
/// traversal order, regular files only, subject to the filter.
pub fn gather_files(
    root_path: &String,
    root_is_file: bool,
    entries: &Vec<FsEntry>,
    filter: &Option<Vec<Vec<u8>>>,
) -> (r: Vec<String>)
    ensures
        root_is_file ==> r.deep_view() == seq![root_path@],
        !root_is_file ==> r.deep_view() == gathered(entries.deep_view(), filter_model(filter)),
{
    let mut out: Vec<String> = Vec::new();
    if root_is_file {
        out.push(root_path.clone());
        proof {
            assert(out.deep_view() =~= seq![root_path@]);
        }
        return out;
    }
    let mut i: usize = 0;
    while i < entries.len()
        invariant
            i <= entries@.len(),
            out.deep_view() == gathered(
                entries.deep_view().take(i as int),
                filter_model(filter),
            ),
        decreases entries@.len() - i,
    {
        let ghost dv = entries.deep_view();
        let ghost out_before = out.deep_view();
        let e = &entries[i];
        if e.is_file && file_included(e.name.as_slice(), filter) {
            out.push(e.path.clone());
            proof {
                assert(out.deep_view() =~~= out_before.push(e.path@));
            }
        }
        proof {
            lemma_gathered_push(dv.take(i as int), dv[i as int], filter_model(filter));
            assert(dv.take(i as int + 1) =~= dv.take(i as int).push(dv[i as int]));
            assert(out.deep_view() =~= gathered(dv.take(i as int + 1), filter_model(filter)));
        }
        i += 1;
    }
    proof {
        assert(entries.deep_view().take(entries@.len() as int) =~= entries.deep_view());
    }
    out
}

} // verus!
