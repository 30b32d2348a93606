//! The scan pipeline: every matcher runs over each readable file's text,
//! and each match becomes one typed record tagged with its source file.
//!
//! Per file the record order is fixed: IPv4 matches first, then domain
//! matches, then hash matches, each block in its matcher's scan order.
//! Files contribute in enumeration order; a file whose content could not be
//! read or decoded contributes nothing and never stops the scan.

use vstd::prelude::*;
use crate::domain::{domain_values, find_domain};
use crate::hashes::{find_hash, hash_values};
use crate::ipv4::{find_ipv4, ipv4_values};

verus! {

/// The kind of indicator a record reports.
#[derive(Clone, Copy, PartialEq, Eq, Structural, Debug)]
pub enum IocType {
    IPv4,
    Domain,
    Hash,
}

impl IocType {
    /// The literal tag the report format uses for this kind.
    pub fn label(&self) -> (r: &'static str)
        ensures
            *self == IocType::IPv4 ==> r@ == "IPv4"@,
            *self == IocType::Domain ==> r@ == "Domain"@,
            *self == IocType::Hash ==> r@ == "Hash"@,
    {
        match self {
            IocType::IPv4 => "IPv4",
            IocType::Domain => "Domain",
            IocType::Hash => "Hash",
        }
    }
}

/// One pattern match: the file it came from, the indicator kind, and the
/// matched bytes.  Records are created once per match and never mutated.
#[derive(Clone, PartialEq, Eq, Debug)]
pub struct MatchRecord {
    pub file: String,
    pub ioc_type: IocType,
    pub value: Vec<u8>,
}

/// The mathematical shadow of a `MatchRecord`.
pub struct RecordModel {
    pub file: Seq<char>,
    pub ioc_type: IocType,
    pub value: Seq<u8>,
}

impl View for MatchRecord {
    type V = RecordModel;

    open spec fn view(&self) -> RecordModel {
        RecordModel { file: self.file@, ioc_type: self.ioc_type, value: self.value@ }
    }
}

impl DeepView for MatchRecord {
    type V = RecordModel;

    open spec fn deep_view(&self) -> RecordModel {
        self.view()
    }
}

/// One enumerated file handed to the scan: its display path and its text,
/// or `None` where reading or decoding failed.
pub struct ScanInput {
    pub path: String,
    pub content: Option<Vec<u8>>,
}

/// The mathematical shadow of a `ScanInput`.
pub struct InputModel {
    pub path: Seq<char>,
    pub content: Option<Seq<u8>>,
}

impl View for ScanInput {
    type V = InputModel;

    open spec fn view(&self) -> InputModel {
        InputModel {
            path: self.path@,
            content: match self.content {
                Some(v) => Some(v@),
                None => None,
            },
        }
    }
}

impl DeepView for ScanInput {
    type V = InputModel;

    open spec fn deep_view(&self) -> InputModel {
        self.view()
    }
}

/// The matched values of one kind, each wrapped as a record of `file`.
pub open spec fn tagged(file: Seq<char>, t: IocType, vals: Seq<Seq<u8>>) -> Seq<RecordModel> {
    vals.map_values(|v: Seq<u8>| RecordModel { file: file, ioc_type: t, value: v })
}

/// All records one file's text contributes: IPv4, then domain, then hash
/// matches, each in scan order.
pub open spec fn file_records(file: Seq<char>, text: Seq<u8>) -> Seq<RecordModel> {
    tagged(file, IocType::IPv4, ipv4_values(text)) + tagged(
        file,
        IocType::Domain,
        domain_values(text),
    ) + tagged(file, IocType::Hash, hash_values(text))
}

/// What one input contributes to the whole scan.
pub open spec fn contribution(x: InputModel) -> Seq<RecordModel> {
    match x.content {
        Some(t) => file_records(x.path, t),
        None => Seq::empty(),
    }
}

/// The records a whole scan produces, file by file in enumeration order.
pub open spec fn scan_records(inputs: Seq<InputModel>) -> Seq<RecordModel>
    decreases inputs.len(),
{
    if inputs.len() == 0 {
        Seq::empty()
    } else {
        contribution(inputs[0]) + scan_records(inputs.drop_first())
    }
}

/// The sum of per-file match counts over the readable files.
pub open spec fn total_count(inputs: Seq<InputModel>) -> nat
    decreases inputs.len(),
{
    if inputs.len() == 0 {
        0
    } else {
        contribution(inputs[0]).len() + total_count(inputs.drop_first())
    }
}

proof fn lemma_scan_records_push(inputs: Seq<InputModel>, x: InputModel)
    ensures
        scan_records(inputs.push(x)) == scan_records(inputs) + contribution(x),
    decreases inputs.len(),
{
    if inputs.len() == 0 {
        assert(inputs.push(x)[0] == x);
        assert(inputs.push(x).drop_first() =~= inputs);
        assert(scan_records(inputs.push(x)) =~= scan_records(inputs) + contribution(x));
    } else {
        assert(inputs.push(x).drop_first() =~= inputs.drop_first().push(x));
        assert(inputs.push(x)[0] == inputs[0]);
        lemma_scan_records_push(inputs.drop_first(), x);
        assert(scan_records(inputs.push(x)) =~= scan_records(inputs) + contribution(x));
    }
}

/// Moves `vals`, tagged as records of kind `t` for `file`, onto `out`.
fn push_tagged(out: &mut Vec<MatchRecord>, file: &String, t: IocType, vals: Vec<Vec<u8>>)
    ensures
        final(out).deep_view() == old(out).deep_view() + tagged(file@, t, vals.deep_view()),
{
    let mut vals = vals;
    let ghost base = out.deep_view();
    let ghost whole = vals.deep_view();
    while vals.len() > 0
        invariant
            base + tagged(file@, t, whole) == out.deep_view() + tagged(file@, t, vals.deep_view()),
        decreases vals.len(),
    {
        let ghost before = vals.deep_view();
        let ghost out_before = out.deep_view();
        let v = vals.remove(0);
        let rec = MatchRecord { file: file.clone(), ioc_type: t, value: v };
        proof {
            assert(vals.deep_view() =~= before.drop_first());
            assert(before[0] =~= rec@.value);
            assert(tagged(file@, t, before) =~= seq![rec@] + tagged(file@, t, vals.deep_view()));
        }
        out.push(rec);
        proof {
            assert(out.deep_view() =~~= out_before.push(rec@));
            assert(out.deep_view() + tagged(file@, t, vals.deep_view()) =~= out_before + tagged(
                file@,
                t,
                before,
            ));
        }
    }
    proof {
        assert(tagged(file@, t, vals.deep_view()) =~= Seq::<RecordModel>::empty());
        assert(base + tagged(file@, t, whole) =~= out.deep_view());
    }
}

/// Runs all three matchers over one file's text and returns its records:
/// IPv4 matches, then domain matches, then hash matches, in scan order.
pub fn scan_text(file: &String, text: &[u8]) -> (r: Vec<MatchRecord>)
    ensures
        r.deep_view() == file_records(file@, text@),
{
    let mut out: Vec<MatchRecord> = Vec::new();
    let ips = find_ipv4(text);
    push_tagged(&mut out, file, IocType::IPv4, ips);
    let doms = find_domain(text);
    push_tagged(&mut out, file, IocType::Domain, doms);
    let hs = find_hash(text);
    push_tagged(&mut out, file, IocType::Hash, hs);
    proof {
        assert(out.deep_view() =~= file_records(file@, text@));
    }
    out
}

/// Scans every input in order and accumulates all records.  An input
/// without content is skipped; it neither contributes records nor stops
/// the scan.  The result's length is the total match count.
pub fn scan_files(inputs: &Vec<ScanInput>) -> (r: Vec<MatchRecord>)
    ensures
        r.deep_view() == scan_records(inputs.deep_view()),
        r@.len() == total_count(inputs.deep_view()),
{
    let mut out: Vec<MatchRecord> = Vec::new();
    let mut i: usize = 0;
    while i < inputs.len()
        invariant
            i <= inputs@.len(),
            out.deep_view() == scan_records(inputs.deep_view().take(i as int)),
        decreases inputs@.len() - i,
    {
        let ghost dv = inputs.deep_view();
        let ghost out_before = out.deep_view();
        let inp = &inputs[i];
        match &inp.content {
            Some(text) => {
                let mut recs = scan_text(&inp.path, text.as_slice());
                let ghost recs_dv = recs.deep_view();
                out.append(&mut recs);
                proof {
                    assert(out.deep_view() =~~= out_before + recs_dv);
                    assert(recs_dv == contribution(dv[i as int]));
                }
            },
            None => {
                proof {
                    assert(contribution(dv[i as int]) =~= Seq::<RecordModel>::empty());
                    assert(out.deep_view() =~= out_before + contribution(dv[i as int]));
                }
            },
        }
        proof {
            lemma_scan_records_push(dv.take(i as int), dv[i as int]);
            assert(dv.take(i as int + 1) =~= dv.take(i as int).push(dv[i as int]));
        }
        i += 1;
    }
    proof {
        assert(inputs.deep_view().take(inputs@.len() as int) =~= inputs.deep_view());
        lemma_scan_count(inputs.deep_view());
    }
    out
}

/// The scan's record count is the sum of per-file match counts over the
/// readable files alone.
pub proof fn lemma_scan_count(inputs: Seq<InputModel>)
    ensures
        scan_records(inputs).len() == total_count(inputs),
    decreases inputs.len(),
{
    if inputs.len() > 0 {
        lemma_scan_count(inputs.drop_first());
    }
}

/// The whole scan is a function of the enumerated files and their contents
/// alone: scanning the same inputs twice — a directory with no filesystem
/// changes in between — yields the identical record sequence, same records
/// in the same order.
pub proof fn lemma_scan_idempotent(a: Seq<InputModel>, b: Seq<InputModel>)
    requires
        a == b,
    ensures
        scan_records(a) == scan_records(b),
{
}

/// An input without readable content contributes nothing: removing it
/// leaves the scan's output unchanged.
pub proof fn lemma_unreadable_skipped(inputs: Seq<InputModel>, k: int)
    requires
        0 <= k < inputs.len(),
        inputs[k].content is None,
    ensures
        scan_records(inputs) == scan_records(inputs.remove(k)),
    decreases inputs.len(),
{
    if k == 0 {
        assert(inputs.remove(0) =~= inputs.drop_first());
        assert(contribution(inputs[0]) =~= Seq::<RecordModel>::empty());
        assert(scan_records(inputs) =~= scan_records(inputs.remove(k)));
    } else {
        lemma_unreadable_skipped(inputs.drop_first(), k - 1);
        assert(inputs.remove(k).drop_first() =~= inputs.drop_first().remove(k - 1));
        assert(inputs.remove(k)[0] == inputs[0]);
        assert(scan_records(inputs) =~= scan_records(inputs.remove(k)));
    }
}

/// Every record a file contributes carries that file's path.
pub proof fn lemma_contribution_files(x: InputModel)
    ensures
        forall|k: int|
            0 <= k < contribution(x).len() ==> (#[trigger] contribution(x)[k]).file == x.path,
{
    match x.content {
        Some(t) => {
            let n1 = ipv4_values(t).len() as int;
            let n2 = domain_values(t).len() as int;
            assert forall|k: int| 0 <= k < contribution(x).len() implies (#[trigger] contribution(
                x,
            )[k]).file == x.path by {
                if k < n1 {
                    assert(contribution(x)[k] == tagged(x.path, IocType::IPv4, ipv4_values(t))[k]);
                } else if k < n1 + n2 {
                    assert(contribution(x)[k] == tagged(x.path, IocType::Domain, domain_values(t))[
                        k - n1
                    ]);
                } else {
                    assert(contribution(x)[k] == tagged(x.path, IocType::Hash, hash_values(t))[k
                        - n1 - n2]);
                }
            }
        },
        None => {},
    }
}

/// No record ever names a file that could not be read: where every input
/// bearing path `u` lacks content, no scanned record's `file` field is `u` —
/// while the records of every other input, before or after the failed one,
/// are present unchanged.
pub proof fn lemma_no_record_of_unreadable(inputs: Seq<InputModel>, u: Seq<char>)
    requires
        forall|m: int|
            0 <= m < inputs.len() && (#[trigger] inputs[m]).path == u ==> inputs[m].content
                is None,
    ensures
        forall|k: int|
            0 <= k < scan_records(inputs).len() ==> (#[trigger] scan_records(inputs)[k]).file != u,
    decreases inputs.len(),
{
    if inputs.len() > 0 {
        let head = contribution(inputs[0]);
        let tail = inputs.drop_first();
        assert forall|m: int| 0 <= m < tail.len() && (#[trigger] tail[m]).path == u implies tail[
            m
        ].content is None by {
            assert(tail[m] == inputs[m + 1]);
        }
        lemma_no_record_of_unreadable(tail, u);
        lemma_contribution_files(inputs[0]);
        assert forall|k: int| 0 <= k < scan_records(inputs).len() implies (#[trigger] scan_records(
            inputs,
        )[k]).file != u by {
            if k < head.len() {
                assert(scan_records(inputs)[k] == head[k]);
                assert(head[k].file == inputs[0].path);
            } else {
                assert(scan_records(inputs)[k] == scan_records(tail)[k - head.len()]);
            }
        }
    }
}

/// Record ordering within one file is stable: every IPv4 record precedes
/// every domain record, and every domain record precedes every hash record.
pub proof fn lemma_file_record_order(file: Seq<char>, text: Seq<u8>)
    ensures
        forall|a: int, b: int|
            #![trigger file_records(file, text)[a], file_records(file, text)[b]]
            0 <= a < file_records(file, text).len() && 0 <= b < file_records(file, text).len()
                && file_records(file, text)[a].ioc_type == IocType::IPv4 && file_records(
                file,
                text,
            )[b].ioc_type == IocType::Domain ==> a < b,
        forall|a: int, b: int|
            #![trigger file_records(file, text)[a], file_records(file, text)[b]]
            0 <= a < file_records(file, text).len() && 0 <= b < file_records(file, text).len()
                && file_records(file, text)[a].ioc_type == IocType::Domain && file_records(
                file,
                text,
            )[b].ioc_type == IocType::Hash ==> a < b,
        forall|a: int, b: int|
            #![trigger file_records(file, text)[a], file_records(file, text)[b]]
            0 <= a < file_records(file, text).len() && 0 <= b < file_records(file, text).len()
                && file_records(file, text)[a].ioc_type == IocType::IPv4 && file_records(
                file,
                text,
            )[b].ioc_type == IocType::Hash ==> a < b,
{
    let r = file_records(file, text);
    let n1 = ipv4_values(text).len() as int;
    let n2 = domain_values(text).len() as int;
    let n3 = hash_values(text).len() as int;
    assert forall|a: int| 0 <= a < r.len() implies {
        &&& (#[trigger] r[a].ioc_type == IocType::IPv4 <==> a < n1)
        &&& (r[a].ioc_type == IocType::Domain <==> n1 <= a < n1 + n2)
        &&& (r[a].ioc_type == IocType::Hash <==> n1 + n2 <= a)
    } by {
        if a < n1 {
            assert(r[a] == tagged(file, IocType::IPv4, ipv4_values(text))[a]);
        } else if a < n1 + n2 {
            assert(r[a] == tagged(file, IocType::Domain, domain_values(text))[a - n1]);
        } else {
            assert(r[a] == tagged(file, IocType::Hash, hash_values(text))[a - n1 - n2]);
        }
    }
}

} // verus!
