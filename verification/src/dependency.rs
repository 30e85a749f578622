//! The rule scanner and the merge pass, over an owned byte buffer.
//!
//! [`DependencyParser::parse`] takes a buffer of Makefile-style dependency
//! rules and leaves in `deps` one entry per distinct target, its
//! prerequisites deduplicated and in first-seen order. The scanner walks the
//! buffer once by index, mirroring [`crate::scan`]; the merge pass mirrors
//! [`crate::merge`]. A grammar violation aborts the parse: the error is
//! returned and no partial output is kept.

use vstd::prelude::*;

use crate::hash::{path_hash, path_hash_of};
use crate::merge::{
    dedup_append, find_target, lemma_dedup_snoc, lemma_find_target, lemma_find_target_present,
    merge_rule, spec_merge, targets_of,
};
use crate::scan::{
    lemma_prereqs_token, lemma_skip_line_bounds, mk_rules, spec_prereq_token, spec_prereqs,
    spec_rules, spec_scan, spec_skip_line, spec_targets, B_BACKSLASH, B_COLON, B_HASH, B_NL,
    B_SPACE, B_TAB, PrereqsRun, RuleView,
};

verus! {

/// The fatal outcome of a parse: the input violates the rule grammar.
#[derive(Debug, PartialEq, Eq)]
pub struct SyntaxError;

/// One entry: a target and its prerequisites. Before the merge pass there is
/// one per target occurrence in the input; afterwards one per distinct
/// target.
pub struct Dependency {
    pub target: Vec<u8>,
    pub prerequisites: Vec<Vec<u8>>,
}

impl View for Dependency {
    type V = RuleView;

    open spec fn view(&self) -> RuleView {
        RuleView { target: self.target@, prerequisites: self.prerequisites.deep_view() }
    }
}

impl Dependency {
    /// A fresh entry for `name`, with no prerequisites yet.
    pub fn new(name: Vec<u8>) -> (r: Self)
        ensures
            r@ == (RuleView { target: name@, prerequisites: Seq::<Seq<u8>>::empty() }),
    {
        let d = Dependency { target: name, prerequisites: Vec::new() };
        proof {
            assert(d@.prerequisites =~= Seq::<Seq<u8>>::empty());
            assert(d@ =~= RuleView { target: d.target@, prerequisites: Seq::<Seq<u8>>::empty() });
        }
        d
    }
}

/// The entries of a parser, as scanned rule records.
pub open spec fn deps_view(s: Seq<Dependency>) -> Seq<RuleView> {
    s.map_values(|d: Dependency| d@)
}

/// A copy of the bytes `data[begin..end]`: one token of the input.
fn token_bytes(data: &Vec<u8>, begin: usize, end: usize) -> (r: Vec<u8>)
    requires
        begin <= end <= data@.len(),
    ensures
        r@ == data@.subrange(begin as int, end as int),
{
    let mut out: Vec<u8> = Vec::new();
    let mut i = begin;
    while i < end
        invariant
            begin <= i <= end <= data@.len(),
            out@ == data@.subrange(begin as int, i as int),
        decreases end - i,
    {
        out.push(data[i]);
        proof {
            assert(data@.subrange(begin as int, i + 1) =~= data@.subrange(begin as int, i as int)
                .push(data@[i as int]));
        }
        i = i + 1;
    }
    out
}

/// The offset just past the next newline at or after `begin`, capped at the
/// buffer end.
pub fn skip_line(data: &Vec<u8>, begin: usize) -> (r: usize)
    requires
        begin <= data@.len(),
    ensures
        r as int == spec_skip_line(data@, begin as int),
        begin <= r <= data@.len(),
{
    let mut i = begin;
    while i < data.len() && data[i] != B_NL
        invariant
            begin <= i <= data@.len(),
            spec_skip_line(data@, begin as int) == spec_skip_line(data@, i as int),
        decreases data@.len() - i,
    {
        i = i + 1;
    }
    if i < data.len() {
        i + 1
    } else {
        i
    }
}

/// Skips a comment: everything up to and including the next newline.
pub fn skip_comment(data: &Vec<u8>, begin: usize) -> (r: usize)
    requires
        begin <= data@.len(),
    ensures
        r as int == spec_skip_line(data@, begin as int),
        begin <= r <= data@.len(),
{
    skip_line(data, begin)
}



/// Byte-string equality.
fn bytes_eq(a: &Vec<u8>, b: &Vec<u8>) -> (r: bool)
    ensures
        r == (a@ == b@),
{
    if a.len() != b.len() {
        return false;
    }
    let mut i: usize = 0;
    while i < a.len()
        invariant
            i <= a@.len(),
            a@.len() == b@.len(),
            forall|k: int| 0 <= k < i ==> a@[k] == b@[k],
        decreases a@.len() - i,
    {
        if a[i] != b[i] {
            return false;
        }
        i = i + 1;
    }
    proof {
        assert(a@ =~= b@);
    }
    true
}

/// The index of the first entry whose target is `t`, if any. `hashes`
/// carries the fingerprint of each entry's target, and `th` the fingerprint
/// of `t`: bytes are compared only where the fingerprints agree.
fn find_entry(entries: &Vec<Dependency>, hashes: &Vec<u64>, t: &Vec<u8>, th: u64) -> (r: Option<
    usize,
>)
    requires
        hashes@.len() == entries@.len(),
        forall|j: int|
            0 <= j < entries@.len() ==> hashes@[j] == path_hash(
                (#[trigger] entries@[j])@.target,
            ),
        th == path_hash(t@),
    ensures
        ({
            let ft = find_target(deps_view(entries@), t@);
            match r {
                Some(k) => ft == k && k < entries@.len(),
                None => ft == -1,
            }
        }),
{
    let mut k: usize = 0;
    while k < entries.len()
        invariant
            k <= entries@.len(),
            hashes@.len() == entries@.len(),
            forall|j: int|
                0 <= j < entries@.len() ==> hashes@[j] == path_hash(
                    (#[trigger] entries@[j])@.target,
                ),
            th == path_hash(t@),
            forall|j: int| 0 <= j < k ==> (#[trigger] entries@[j])@.target != t@,
        decreases entries@.len() - k,
    {
        let mut matched = false;
        if hashes[k] == th {
            matched = bytes_eq(&entries[k].target, t);
        }
        if matched {
            proof {
                let s = deps_view(entries@);
                lemma_find_target(s, t@);
                lemma_find_target_present(s, t@);
                assert(targets_of(s)[k as int] == s[k as int].target);
                assert(s[k as int].target == t@);
                assert(targets_of(s).contains(t@));
                let ft = find_target(s, t@);
                assert(ft >= 0);
                if ft < k {
                    assert(s[ft] == entries@[ft]@);
                    assert(false);
                }
                if ft > k {
                    assert(s[k as int].target != t@);
                    assert(false);
                }
            }
            return Some(k);
        }
        proof {
            assert(entries@[k as int]@.target != t@) by {
                if entries@[k as int]@.target == t@ {
                    assert(hashes@[k as int] == path_hash(t@));
                }
            }
        }
        k = k + 1;
    }
    proof {
        let s = deps_view(entries@);
        lemma_find_target_present(s, t@);
        if targets_of(s).contains(t@) {
            let w = choose|w: int| 0 <= w < targets_of(s).len() && targets_of(s)[w] == t@;
            assert(targets_of(s)[w] == s[w].target);
            assert(entries@[w]@.target != t@);
            assert(false);
        }
    }
    None
}

/// Whether `t` already stands in the token list `list`. `hashes` carries
/// the fingerprint of each token, and `th` the fingerprint of `t`: bytes
/// are compared only where the fingerprints agree.
fn contains_token(list: &Vec<Vec<u8>>, hashes: &Vec<u64>, t: &Vec<u8>, th: u64) -> (r: bool)
    requires
        hashes@.len() == list@.len(),
        forall|j: int|
            0 <= j < list@.len() ==> hashes@[j] == path_hash(#[trigger] list.deep_view()[j]),
        th == path_hash(t@),
    ensures
        r == list.deep_view().contains(t@),
{
    let mut k: usize = 0;
    while k < list.len()
        invariant
            k <= list@.len(),
            hashes@.len() == list@.len(),
            forall|j: int|
                0 <= j < list@.len() ==> hashes@[j] == path_hash(#[trigger] list.deep_view()[j]),
            th == path_hash(t@),
            forall|j: int| 0 <= j < k ==> #[trigger] list.deep_view()[j] != t@,
        decreases list@.len() - k,
    {
        let mut matched = false;
        if hashes[k] == th {
            matched = bytes_eq(&list[k], t);
        }
        if matched {
            proof {
                assert(list.deep_view()[k as int] =~= list@[k as int]@);
                assert(list.deep_view()[k as int] == t@);
            }
            return true;
        }
        proof {
            assert(list.deep_view()[k as int] =~= list@[k as int]@);
            assert(list.deep_view()[k as int] != t@) by {
                if list.deep_view()[k as int] == t@ {
                    assert(hashes@[k as int] == path_hash(t@));
                }
            }
        }
        k = k + 1;
    }
    proof {
        if list.deep_view().contains(t@) {
            let w = choose|w: int|
                0 <= w < list.deep_view().len() && list.deep_view()[w] == t@;
            assert(list.deep_view()[w] != t@);
            assert(false);
        }
    }
    false
}

/// The pending token start, as the spec sees it.
pub open spec fn opt_int(t: Option<usize>) -> Option<int> {
    match t {
        Some(s) => Some(s as int),
        None => None,
    }
}

/// The reusable parser: the buffer of the current parse call and the entries
/// scanned out of it.
pub struct DependencyParser {
    pub data: Vec<u8>,
    pub deps: Vec<Dependency>,
}

impl DependencyParser {
    pub fn new() -> (r: Self)
        ensures
            r.data@ == Seq::<u8>::empty(),
            r.deps@ == Seq::<Dependency>::empty(),
    {
        DependencyParser { data: Vec::new(), deps: Vec::new() }
    }

    /// Pushes a fresh entry for the target `data[begin..end]`.
    fn emit_target(&mut self, begin: usize, end: usize)
        requires
            begin <= end <= old(self).data@.len(),
        ensures
            final(self).data == old(self).data,
            final(self).deps@.len() == old(self).deps@.len() + 1,
            forall|j: int| 0 <= j < old(self).deps@.len() ==> final(self).deps@[j] == old(
                self,
            ).deps@[j],
            final(self).deps@[old(self).deps@.len() as int]@ == (RuleView {
                target: old(self).data@.subrange(begin as int, end as int),
                prerequisites: Seq::<Seq<u8>>::empty(),
            }),
            deps_view(final(self).deps@) == deps_view(old(self).deps@).push(
                RuleView {
                    target: old(self).data@.subrange(begin as int, end as int),
                    prerequisites: Seq::<Seq<u8>>::empty(),
                },
            ),
    {
        let name = token_bytes(&self.data, begin, end);
        let d = Dependency::new(name);
        self.deps.push(d);
        proof {
            assert(deps_view(self.deps@) =~= deps_view(old(self).deps@).push(
                RuleView {
                    target: old(self).data@.subrange(begin as int, end as int),
                    prerequisites: Seq::<Seq<u8>>::empty(),
                },
            ));
        }
    }

    /// Appends the token `data[begin..end]` to the prerequisite list of every
    /// entry from `start` on: every target of the current rule.
    fn emit_prerequisite(&mut self, start: usize, begin: usize, end: usize)
        requires
            start <= old(self).deps@.len(),
            begin <= end <= old(self).data@.len(),
        ensures
            final(self).data == old(self).data,
            final(self).deps@.len() == old(self).deps@.len(),
            forall|j: int| 0 <= j < start ==> final(self).deps@[j] == old(self).deps@[j],
            forall|j: int|
                start <= j < old(self).deps@.len() ==> (#[trigger] final(self).deps@[j])@
                    == (RuleView {
                    target: old(self).deps@[j]@.target,
                    prerequisites: old(self).deps@[j]@.prerequisites.push(
                        old(self).data@.subrange(begin as int, end as int),
                    ),
                }),
    {
        let mut m = start;
        while m < self.deps.len()
            invariant
                start <= m <= self.deps@.len(),
                begin <= end <= self.data@.len(),
                self.data == old(self).data,
                self.deps@.len() == old(self).deps@.len(),
                forall|j: int| 0 <= j < start ==> self.deps@[j] == old(self).deps@[j],
                forall|j: int| m <= j < self.deps@.len() ==> self.deps@[j] == old(self).deps@[j],
                forall|j: int|
                    start <= j < m ==> (#[trigger] self.deps@[j])@ == (RuleView {
                        target: old(self).deps@[j]@.target,
                        prerequisites: old(self).deps@[j]@.prerequisites.push(
                            old(self).data@.subrange(begin as int, end as int),
                        ),
                    }),
            decreases self.deps@.len() - m,
        {
            let token = token_bytes(&self.data, begin, end);
            let ghost prev = self.deps@[m as int];
            self.deps[m].prerequisites.push(token);
            proof {
                assert(self.deps@[m as int]@.prerequisites =~~= prev@.prerequisites.push(
                    old(self).data@.subrange(begin as int, end as int),
                ));
                assert(self.deps@[m as int]@ =~~= RuleView {
                    target: old(self).deps@[m as int]@.target,
                    prerequisites: old(self).deps@[m as int]@.prerequisites.push(
                        old(self).data@.subrange(begin as int, end as int),
                    ),
                });
            }
            m = m + 1;
        }
    }

    /// Scans one prerequisite token starting at `begin` and appends it to
    /// the prerequisite list of every entry from `start` on. Returns the
    /// offset where scanning resumes and whether the rule ended here.
    pub fn parse_prerequisite(&mut self, start: usize, begin: usize) -> (r: (usize, bool))
        requires
            start <= old(self).deps@.len(),
            begin <= old(self).data@.len(),
        ensures
            ({
                let t = spec_prereq_token(old(self).data@, begin as int, begin as int);
                &&& r.0 as int == t.resume
                &&& r.1 == t.done
                &&& begin <= r.0 <= old(self).data@.len()
                &&& (begin < old(self).data@.len() ==> begin < r.0)
                &&& final(self).data == old(self).data
                &&& final(self).deps@.len() == old(self).deps@.len()
                &&& forall|j: int| 0 <= j < start ==> final(self).deps@[j] == old(self).deps@[j]
                &&& forall|j: int|
                    start <= j < old(self).deps@.len() ==> (#[trigger] final(self).deps@[j])@
                        == (RuleView {
                        target: old(self).deps@[j]@.target,
                        prerequisites: old(self).deps@[j]@.prerequisites.push(t.token),
                    })
            }),
    {
        let mut p = begin;
        while p < self.data.len()
            invariant
                start <= self.deps@.len(),
                begin <= p <= self.data@.len(),
                self.data == old(self).data,
                self.deps == old(self).deps,
                spec_prereq_token(self.data@, begin as int, begin as int) == spec_prereq_token(
                    self.data@,
                    begin as int,
                    p as int,
                ),
            decreases self.data@.len() - p,
        {
            let b = self.data[p];
            if b == B_SPACE || b == B_TAB {
                self.emit_prerequisite(start, begin, p);
                return (p + 1, false);
            } else if b == B_NL {
                self.emit_prerequisite(start, begin, p);
                return (p + 1, true);
            } else if b == B_HASH {
                self.emit_prerequisite(start, begin, p);
                let r = skip_comment(&self.data, p);
                proof {
                    assert(spec_skip_line(self.data@, p as int) == spec_skip_line(
                        self.data@,
                        p + 1,
                    ));
                    lemma_skip_line_bounds(self.data@, p + 1);
                }
                return (r, true);
            } else if b == B_BACKSLASH {
                if p + 1 >= self.data.len() {
                    let end = self.data.len();
                    self.emit_prerequisite(start, begin, end);
                    return (end, false);
                } else if self.data[p + 1] == B_NL {
                    self.emit_prerequisite(start, begin, p);
                    return (p + 2, false);
                } else {
                    p = p + 2;
                }
            } else {
                p = p + 1;
            }
        }
        let end = self.data.len();
        self.emit_prerequisite(start, begin, end);
        (end, false)
    }

    /// Scans the prerequisite list of one rule from `begin`, appending each
    /// token to every entry from `start` on. Returns the offset where the
    /// next rule may start.
    pub fn parse_prerequisites(&mut self, start: usize, begin: usize) -> (r: usize)
        requires
            start <= old(self).deps@.len(),
            begin <= old(self).data@.len(),
        ensures
            ({
                let run = spec_prereqs(old(self).data@, begin as int, None, Seq::empty());
                &&& r as int == run.resume
                &&& begin <= r <= old(self).data@.len()
                &&& final(self).data == old(self).data
                &&& final(self).deps@.len() == old(self).deps@.len()
                &&& forall|j: int| 0 <= j < start ==> final(self).deps@[j] == old(self).deps@[j]
                &&& forall|j: int|
                    start <= j < old(self).deps@.len() ==> (#[trigger] final(self).deps@[j])@
                        == (RuleView {
                        target: old(self).deps@[j]@.target,
                        prerequisites: old(self).deps@[j]@.prerequisites + run.tokens,
                    })
            }),
    {
        let ghost toks: Seq<Seq<u8>> = Seq::empty();
        let mut i = begin;
        proof {
            assert forall|j: int| start <= j < self.deps@.len() implies (#[trigger] self.deps@[j])@
                == (RuleView {
                target: old(self).deps@[j]@.target,
                prerequisites: old(self).deps@[j]@.prerequisites + toks,
            }) by {
                assert(old(self).deps@[j]@.prerequisites + toks
                    =~= old(self).deps@[j]@.prerequisites);
            }
        }
        while i < self.data.len()
            invariant
                start <= self.deps@.len(),
                begin <= i <= self.data@.len(),
                self.data == old(self).data,
                self.deps@.len() == old(self).deps@.len(),
                spec_prereqs(self.data@, begin as int, None, Seq::empty()) == spec_prereqs(
                    self.data@,
                    i as int,
                    None,
                    toks,
                ),
                forall|j: int| 0 <= j < start ==> self.deps@[j] == old(self).deps@[j],
                forall|j: int|
                    start <= j < self.deps@.len() ==> (#[trigger] self.deps@[j])@ == (RuleView {
                        target: old(self).deps@[j]@.target,
                        prerequisites: old(self).deps@[j]@.prerequisites + toks,
                    }),
            decreases self.data@.len() - i,
        {
            let b = self.data[i];
            if b == B_SPACE || b == B_TAB {
                i = i + 1;
            } else if b == B_NL {
                return i + 1;
            } else if b == B_HASH {
                let r = skip_comment(&self.data, i);
                proof {
                    assert(spec_skip_line(self.data@, i as int) == spec_skip_line(
                        self.data@,
                        i + 1,
                    ));
                }
                return r;
            } else if b == B_BACKSLASH {
                if i + 1 >= self.data.len() {
                    i = i + 1;
                } else if self.data[i + 1] == B_NL {
                    i = i + 2;
                } else {
                    i = i + 1;
                }
            } else {
                let ghost prev_deps = self.deps@;
                let ghost t = spec_prereq_token(self.data@, i as int, i as int);
                proof {
                    assert(spec_prereq_token(self.data@, i as int, i as int)
                        == spec_prereq_token(self.data@, i as int, i + 1));
                    lemma_prereqs_token(self.data@, i as int, i + 1, toks);
                }
                let (np, done) = self.parse_prerequisite(start, i);
                proof {
                    toks = toks.push(t.token);
                    assert forall|j: int| start <= j < self.deps@.len() implies (
                    #[trigger] self.deps@[j])@ == (RuleView {
                        target: old(self).deps@[j]@.target,
                        prerequisites: old(self).deps@[j]@.prerequisites + toks,
                    }) by {
                        assert(self.deps@[j]@ == RuleView {
                            target: prev_deps[j]@.target,
                            prerequisites: prev_deps[j]@.prerequisites.push(t.token),
                        });
                        assert((old(self).deps@[j]@.prerequisites + toks.drop_last()).push(t.token)
                            =~= old(self).deps@[j]@.prerequisites + toks);
                    }
                }
                if done {
                    return np;
                }
                i = np;
            }
        }
        let ghost run = spec_prereqs(self.data@, begin as int, None, Seq::empty());
        proof {
            assert(run == PrereqsRun { resume: self.data@.len() as int, tokens: toks });
        }
        self.data.len()
    }

    /// Scans one target list from `begin` and, once its colon is found, the
    /// prerequisite list after it. Pushes one entry per target; every token
    /// of the prerequisite list goes to each of them. Returns the offset
    /// where the next rule may start, or the grammar error.
    pub fn parse_targets(&mut self, begin: usize) -> (r: Result<usize, SyntaxError>)
        requires
            begin <= old(self).data@.len(),
        ensures
            final(self).data == old(self).data,
            final(self).deps@.len() >= old(self).deps@.len(),
            forall|j: int|
                0 <= j < old(self).deps@.len() ==> final(self).deps@[j] == old(self).deps@[j],
            ({
                match spec_targets(old(self).data@, begin as int, None, Seq::empty()) {
                    None => r is Err,
                    Some(tr) => {
                        let run = spec_prereqs(old(self).data@, tr.resume, None, Seq::empty());
                        &&& r matches Ok(v) && v as int == run.resume
                        &&& begin <= run.resume <= old(self).data@.len()
                        &&& (begin < old(self).data@.len() ==> begin < run.resume)
                        &&& deps_view(final(self).deps@) == deps_view(old(self).deps@) + mk_rules(
                            tr.targets,
                            run.tokens,
                        )
                    },
                }
            }),
    {
        let start = self.deps.len();
        let mut i = begin;
        let mut tok: Option<usize> = None;
        let ghost mut tgts: Seq<Seq<u8>> = Seq::empty();
        proof {
            assert(deps_view(self.deps@) =~= deps_view(old(self).deps@) + mk_rules(
                tgts,
                Seq::empty(),
            ));
        }
        while i < self.data.len()
            invariant
                begin <= i <= self.data@.len(),
                self.data == old(self).data,
                start as int == old(self).deps@.len(),
                self.deps@.len() >= start,
                forall|j: int| 0 <= j < start ==> self.deps@[j] == old(self).deps@[j],
                deps_view(self.deps@) == deps_view(old(self).deps@) + mk_rules(
                    tgts,
                    Seq::empty(),
                ),
                tok matches Some(sx) ==> begin <= sx < i,
                spec_targets(self.data@, begin as int, None, Seq::empty()) == spec_targets(
                    self.data@,
                    i as int,
                    opt_int(tok),
                    tgts,
                ),
            decreases self.data@.len() - i,
        {
            let b = self.data[i];
            if b == B_HASH {
                return Err(SyntaxError);
            } else if b == B_COLON {
                match tok {
                    Some(sx) => {
                        self.emit_target(sx, i);
                        proof {
                            tgts = tgts.push(self.data@.subrange(sx as int, i as int));
                            assert(deps_view(self.deps@) =~= deps_view(old(self).deps@)
                                + mk_rules(tgts, Seq::empty()));
                        }
                    },
                    None => {},
                }
                let ghost mid = self.deps@;
                let rp = self.parse_prerequisites(start, i + 1);
                proof {
                    let tr = spec_targets(old(self).data@, begin as int, None, Seq::empty())
                        .unwrap();
                    let run = spec_prereqs(old(self).data@, tr.resume, None, Seq::empty());
                    assert(tr.targets == tgts);
                    assert(tr.resume == i + 1);
                    assert(deps_view(mid).len() == mid.len());
                    assert(mid.len() == old(self).deps@.len() + tgts.len());
                    assert(self.deps@.len() == mid.len());
                    assert forall|kk: int| 0 <= kk < self.deps@.len() implies #[trigger] deps_view(
                        self.deps@,
                    )[kk] == (deps_view(old(self).deps@) + mk_rules(tr.targets, run.tokens))[kk] by {
                        assert(deps_view(self.deps@)[kk] == self.deps@[kk]@);
                        if kk < start {
                            assert(self.deps@[kk] == mid[kk]);
                            assert(mid[kk] == old(self).deps@[kk]);
                            assert(deps_view(old(self).deps@)[kk] == old(self).deps@[kk]@);
                        } else {
                            assert(deps_view(mid)[kk] == mid[kk]@);
                            assert(deps_view(mid)[kk] == mk_rules(tgts, Seq::empty())[kk - start]);
                            assert(mk_rules(tgts, Seq::empty())[kk - start] == (RuleView {
                                target: tgts[kk - start],
                                prerequisites: Seq::<Seq<u8>>::empty(),
                            }));
                            assert(self.deps@[kk]@ == (RuleView {
                                target: mid[kk]@.target,
                                prerequisites: mid[kk]@.prerequisites + run.tokens,
                            }));
                            assert(Seq::<Seq<u8>>::empty() + run.tokens =~= run.tokens);
                            assert(mk_rules(tr.targets, run.tokens)[kk - start] == (RuleView {
                                target: tgts[kk - start],
                                prerequisites: run.tokens,
                            }));
                        }
                    }
                    assert(deps_view(self.deps@) =~= deps_view(old(self).deps@) + mk_rules(
                        tr.targets,
                        run.tokens,
                    ));
                }
                return Ok(rp);
            } else if b == B_SPACE || b == B_TAB {
                match tok {
                    Some(sx) => {
                        self.emit_target(sx, i);
                        proof {
                            tgts = tgts.push(self.data@.subrange(sx as int, i as int));
                            assert(deps_view(self.deps@) =~= deps_view(old(self).deps@)
                                + mk_rules(tgts, Seq::empty()));
                        }
                    },
                    None => {},
                }
                tok = None;
                i = i + 1;
            } else if b == B_NL {
                return Err(SyntaxError);
            } else if b == B_BACKSLASH {
                if i + 1 >= self.data.len() {
                    return Err(SyntaxError);
                } else if self.data[i + 1] == B_NL {
                    return Err(SyntaxError);
                } else {
                    if tok.is_none() {
                        tok = Some(i);
                    }
                    i = i + 2;
                }
            } else {
                if tok.is_none() {
                    tok = Some(i);
                }
                i = i + 1;
            }
        }
        if tok.is_none() && self.deps.len() == start {
            proof {
                assert(tgts.len() == 0) by {
                    assert(deps_view(self.deps@).len() == self.deps@.len());
                }
                let tr = spec_targets(old(self).data@, begin as int, None, Seq::empty()).unwrap();
                let run = spec_prereqs(old(self).data@, tr.resume, None, Seq::empty());
                assert(run.resume == self.data@.len());
                assert(run.tokens =~= Seq::<Seq<u8>>::empty());
                assert(deps_view(self.deps@) =~= deps_view(old(self).deps@) + mk_rules(
                    tr.targets,
                    run.tokens,
                ));
            }
            Ok(self.data.len())
        } else {
            Err(SyntaxError)
        }
    }

    /// Parses the one rule starting at `begin`.
    pub fn parse_rule(&mut self, begin: usize) -> (r: Result<usize, SyntaxError>)
        requires
            begin <= old(self).data@.len(),
        ensures
            final(self).data == old(self).data,
            final(self).deps@.len() >= old(self).deps@.len(),
            forall|j: int|
                0 <= j < old(self).deps@.len() ==> final(self).deps@[j] == old(self).deps@[j],
            ({
                match spec_targets(old(self).data@, begin as int, None, Seq::empty()) {
                    None => r is Err,
                    Some(tr) => {
                        let run = spec_prereqs(old(self).data@, tr.resume, None, Seq::empty());
                        &&& r matches Ok(v) && v as int == run.resume
                        &&& begin <= run.resume <= old(self).data@.len()
                        &&& (begin < old(self).data@.len() ==> begin < run.resume)
                        &&& deps_view(final(self).deps@) == deps_view(old(self).deps@) + mk_rules(
                            tr.targets,
                            run.tokens,
                        )
                    },
                }
            }),
    {
        self.parse_targets(begin)
    }

    /// Scans the whole buffer: every rule in it, skipping comments and stray
    /// whitespace in between. On success the scanned records stand in
    /// `deps`, one per target occurrence, not yet merged.
    pub fn parse_rules(&mut self) -> (r: Result<(), SyntaxError>)
        ensures
            final(self).data == old(self).data,
            forall|j: int|
                0 <= j < old(self).deps@.len() ==> final(self).deps@[j] == old(self).deps@[j],
            ({
                match spec_rules(old(self).data@, 0) {
                    Some(rs) => r is Ok && deps_view(final(self).deps@) == deps_view(
                        old(self).deps@,
                    ) + rs,
                    None => r is Err,
                }
            }),
    {
        let mut i: usize = 0;
        proof {
            assert(deps_view(self.deps@).subrange(
                old(self).deps@.len() as int,
                self.deps@.len() as int,
            ) =~= Seq::<RuleView>::empty());
        }
        while i < self.data.len()
            invariant
                i <= self.data@.len(),
                self.data == old(self).data,
                self.deps@.len() >= old(self).deps@.len(),
                forall|j: int| 0 <= j < old(self).deps@.len() ==> self.deps@[j] == old(self).deps@[j],
                ({
                    match spec_rules(self.data@, i as int) {
                        Some(rest) => spec_rules(self.data@, 0) == Some(
                            deps_view(self.deps@).subrange(
                                old(self).deps@.len() as int,
                                self.deps@.len() as int,
                            ) + rest,
                        ),
                        None => spec_rules(self.data@, 0) is None,
                    }
                }),
            decreases self.data@.len() - i,
        {
            let b = self.data[i];
            if b == B_NL || b == B_SPACE || b == B_TAB || b == B_BACKSLASH {
                i = i + 1;
            } else if b == B_HASH {
                let r = skip_comment(&self.data, i);
                proof {
                    assert(spec_skip_line(self.data@, i as int) == spec_skip_line(
                        self.data@,
                        i + 1,
                    ));
                    lemma_skip_line_bounds(self.data@, i + 1);
                }
                i = r;
            } else {
                let ghost pre = self.deps@;
                let rr = self.parse_rule(i);
                match rr {
                    Err(e) => {
                        return Err(e);
                    },
                    Ok(np) => {
                        proof {
                            let tr = spec_targets(self.data@, i as int, None, Seq::empty())
                                .unwrap();
                            let run = spec_prereqs(self.data@, tr.resume, None, Seq::empty());
                            let done_old = deps_view(pre).subrange(
                                old(self).deps@.len() as int,
                                pre.len() as int,
                            );
                            let done_new = deps_view(self.deps@).subrange(
                                old(self).deps@.len() as int,
                                self.deps@.len() as int,
                            );
                            let mk = mk_rules(tr.targets, run.tokens);
                            assert(deps_view(self.deps@) == deps_view(pre) + mk);
                            assert(deps_view(self.deps@).len() == pre.len() + mk.len());
                            assert(done_new.len() == done_old.len() + mk.len());
                            assert forall|j: int| 0 <= j < done_new.len() implies #[trigger] done_new[j]
                                == (done_old + mk)[j] by {
                                assert(done_new[j] == deps_view(self.deps@)[old(self).deps@.len()
                                    + j]);
                                assert(deps_view(self.deps@)[old(self).deps@.len() + j]
                                    == (deps_view(pre) + mk)[old(self).deps@.len() + j]);
                                if j < done_old.len() {
                                    assert(done_old[j] == deps_view(pre)[old(self).deps@.len()
                                        + j]);
                                }
                            }
                            assert(done_new =~= done_old + mk);
                            match spec_rules(self.data@, np as int) {
                                Some(rest2) => {
                                    assert(spec_rules(self.data@, i as int) == Some(
                                        mk_rules(tr.targets, run.tokens) + rest2,
                                    ));
                                    assert(done_old + (mk_rules(tr.targets, run.tokens) + rest2)
                                        =~= done_new + rest2);
                                },
                                None => {
                                    assert(spec_rules(self.data@, i as int) is None);
                                },
                            }
                        }
                        i = np;
                    },
                }
            }
        }
        proof {
            assert(spec_rules(self.data@, i as int) == Some(Seq::<RuleView>::empty()));
            match spec_rules(self.data@, 0) {
                Some(rs) => {
                    assert(deps_view(self.deps@).subrange(
                        old(self).deps@.len() as int,
                        self.deps@.len() as int,
                    ) + Seq::<RuleView>::empty() =~= deps_view(self.deps@).subrange(
                        old(self).deps@.len() as int,
                        self.deps@.len() as int,
                    ));
                    assert(deps_view(self.deps@) =~= deps_view(old(self).deps@) + rs);
                },
                None => {},
            }
        }
        Ok(())
    }

    /// Folds the scanned records into one entry per distinct target, in
    /// first-seen order, each prerequisite list deduplicated in first-seen
    /// order.
    pub fn merge_deps(&mut self)
        ensures
            final(self).data == old(self).data,
            deps_view(final(self).deps@) == spec_merge(deps_view(old(self).deps@)),
    {
        let mut merged: Vec<Dependency> = Vec::new();
        let mut thashes: Vec<u64> = Vec::new();
        let mut phashes: Vec<Vec<u64>> = Vec::new();
        let mut n: usize = 0;
        proof {
            assert(deps_view(self.deps@).take(0) =~= Seq::<RuleView>::empty());
            assert(deps_view(merged@) =~= Seq::<RuleView>::empty());
            assert(spec_merge(Seq::<RuleView>::empty()) == Seq::<RuleView>::empty());
        }
        while n < self.deps.len()
            invariant
                n <= self.deps@.len(),
                self.data == old(self).data,
                self.deps == old(self).deps,
                deps_view(merged@) == spec_merge(deps_view(self.deps@).take(n as int)),
                thashes@.len() == merged@.len(),
                forall|j: int|
                    0 <= j < merged@.len() ==> thashes@[j] == path_hash(
                        (#[trigger] merged@[j])@.target,
                    ),
                phashes@.len() == merged@.len(),
                forall|j: int|
                    0 <= j < merged@.len() ==> (#[trigger] phashes@[j])@.len()
                        == merged@[j]@.prerequisites.len(),
                forall|j: int, q: int|
                    0 <= j < merged@.len() && 0 <= q < merged@[j]@.prerequisites.len()
                        ==> (#[trigger] phashes@[j]@[q]) == path_hash(
                        merged@[j]@.prerequisites[q],
                    ),
            decreases self.deps@.len() - n,
        {
            let ghost rules = deps_view(self.deps@);
            let ghost acc = deps_view(merged@);
            let ghost rec = rules[n as int];
            proof {
                assert(rec == self.deps@[n as int]@);
            }
            let th = path_hash_of(&self.deps[n].target);
            let found = find_entry(&merged, &thashes, &self.deps[n].target, th);
            let k: usize;
            match found {
                Some(kk) => {
                    k = kk;
                },
                None => {
                    k = merged.len();
                    let tlen = self.deps[n].target.len();
                    let name = token_bytes(&self.deps[n].target, 0, tlen);
                    proof {
                        assert(name@ =~= self.deps@[n as int].target@);
                    }
                    let d = Dependency::new(name);
                    merged.push(d);
                    thashes.push(th);
                    phashes.push(Vec::new());
                },
            }
            let ghost mid = merged@;
            proof {
                assert(k < mid.len());
                lemma_find_target(acc, rec.target);
                match found {
                    Some(_kk) => {
                        assert(deps_view(mid) == acc);
                        assert(find_target(acc, rec.target) == k);
                        assert(acc[k as int].target == rec.target);
                        assert(deps_view(mid)[k as int] == mid[k as int]@);
                        assert(mid[k as int]@.target == rec.target);
                        assert(acc[k as int].prerequisites == mid[k as int]@.prerequisites);
                    },
                    None => {
                        assert(mid[k as int]@.target == rec.target);
                        assert(mid[k as int]@.prerequisites =~= Seq::<Seq<u8>>::empty());
                        assert(deps_view(mid) =~= acc.push(
                            RuleView {
                                target: rec.target,
                                prerequisites: Seq::<Seq<u8>>::empty(),
                            },
                        ));
                    },
                }
            }
            let ghost p0 = mid[k as int]@.prerequisites;
            let mut q: usize = 0;
            proof {
                assert(rec.prerequisites.take(0) =~= Seq::<Seq<u8>>::empty());
                assert(dedup_append(p0, Seq::<Seq<u8>>::empty()) == p0);
            }
            while q < self.deps[n].prerequisites.len()
                invariant
                    n < self.deps@.len(),
                    self.deps == old(self).deps,
                    rec == self.deps@[n as int]@,
                    acc == spec_merge(deps_view(self.deps@).take(n as int)),
                    found matches Some(kk2) ==> kk2 == k && deps_view(mid) == acc
                        && find_target(acc, rec.target) == k && acc[k as int].target == rec.target
                        && acc[k as int].prerequisites == p0,
                    found is None ==> find_target(acc, rec.target) == -1 && p0
                        == Seq::<Seq<u8>>::empty() && deps_view(mid) == acc.push(
                        RuleView { target: rec.target, prerequisites: Seq::<Seq<u8>>::empty() },
                    ),
                    q <= rec.prerequisites.len(),
                    rec.prerequisites.len() == self.deps@[n as int].prerequisites@.len(),
                    k < merged@.len(),
                    merged@.len() == mid.len(),
                    forall|j: int| 0 <= j < mid.len() && j != k ==> merged@[j] == mid[j],
                    merged@[k as int]@.target == mid[k as int]@.target,
                    merged@[k as int]@.prerequisites == dedup_append(
                        p0,
                        rec.prerequisites.take(q as int),
                    ),
                    thashes@.len() == mid.len(),
                    forall|j: int|
                        0 <= j < mid.len() ==> thashes@[j] == path_hash(
                            (#[trigger] merged@[j])@.target,
                        ),
                    phashes@.len() == mid.len(),
                    forall|j: int|
                        0 <= j < mid.len() ==> (#[trigger] phashes@[j])@.len()
                            == merged@[j]@.prerequisites.len(),
                    forall|j: int, q2: int|
                        0 <= j < mid.len() && 0 <= q2 < merged@[j]@.prerequisites.len()
                            ==> (#[trigger] phashes@[j]@[q2]) == path_hash(
                            merged@[j]@.prerequisites[q2],
                        ),
                decreases self.deps@[n as int].prerequisites@.len() - q,
            {
                let x = &self.deps[n].prerequisites[q];
                proof {
                    assert(x@ =~= rec.prerequisites[q as int]);
                }
                let xh = path_hash_of(x);
                let present = contains_token(&merged[k].prerequisites, &phashes[k], x, xh);
                if !present {
                    let xlen = x.len();
                    let xc = token_bytes(x, 0, xlen);
                    proof {
                        assert(xc@ =~= x@);
                    }
                    let ghost before = merged@[k as int];
                    merged[k].prerequisites.push(xc);
                    phashes[k].push(xh);
                    proof {
                        assert(merged@[k as int]@.prerequisites =~~= before@.prerequisites.push(
                            rec.prerequisites[q as int],
                        ));
                        assert(merged@[k as int]@.prerequisites.last()
                            == rec.prerequisites[q as int]);
                        assert(phashes@[k as int]@.last() == xh);
                    }
                }
                proof {
                    lemma_dedup_snoc(p0, rec.prerequisites.take(q as int), rec.prerequisites[q as int]);
                    assert(rec.prerequisites.take(q + 1) =~= rec.prerequisites.take(q as int)
                        .push(rec.prerequisites[q as int]));
                    assert(merged@[k as int]@.prerequisites == dedup_append(
                        p0,
                        rec.prerequisites.take(q + 1),
                    ));
                }
                q = q + 1;
            }
            proof {
                assert(rec.prerequisites.take(rec.prerequisites.len() as int)
                    =~= rec.prerequisites);
                let stepped = merge_rule(acc, rec);
                lemma_find_target(acc, rec.target);
                match found {
                    Some(_kk) => {
                        assert(find_target(acc, rec.target) == k);
                        assert(acc[k as int].prerequisites == p0);
                        assert(deps_view(merged@) =~= acc.update(
                            k as int,
                            RuleView {
                                target: acc[k as int].target,
                                prerequisites: dedup_append(p0, rec.prerequisites),
                            },
                        ));
                        assert(deps_view(merged@) == stepped);
                    },
                    None => {
                        assert(find_target(acc, rec.target) == -1);
                        assert(p0 =~= Seq::<Seq<u8>>::empty());
                        let entry = RuleView {
                            target: rec.target,
                            prerequisites: dedup_append(Seq::empty(), rec.prerequisites),
                        };
                        assert(merged@[k as int]@ =~= entry) by {
                            assert(dedup_append(Seq::<Seq<u8>>::empty(), rec.prerequisites)
                                == dedup_append(p0, rec.prerequisites));
                        }
                        assert forall|j: int| 0 <= j < merged@.len() implies #[trigger] deps_view(
                            merged@,
                        )[j] == acc.push(entry)[j] by {
                            assert(deps_view(merged@)[j] == merged@[j]@);
                            if j != k {
                                assert(merged@[j] == mid[j]);
                                assert(deps_view(mid)[j] == mid[j]@);
                                assert(acc.push(
                                    RuleView {
                                        target: rec.target,
                                        prerequisites: Seq::<Seq<u8>>::empty(),
                                    },
                                )[j] == acc[j]);
                                assert(acc.push(entry)[j] == acc[j]);
                            }
                        }
                        assert(deps_view(merged@) =~= acc.push(entry));
                        assert(deps_view(merged@) == stepped);
                    },
                }
                assert(rules.take(n + 1).drop_last() =~= rules.take(n as int));
                assert(rules.take(n + 1).last() == rec);
                assert(spec_merge(rules.take(n + 1)) == merge_rule(
                    spec_merge(rules.take(n as int)),
                    rec,
                ));
                assert(deps_view(merged@) == spec_merge(rules.take(n + 1)));
            }
            n = n + 1;
        }
        proof {
            assert(deps_view(self.deps@).take(self.deps@.len() as int) =~= deps_view(
                self.deps@,
            ));
        }
        self.deps = merged;
    }

    /// Parses one whole buffer: the previous output is cleared, the buffer
    /// is scanned, and the records are merged. On success `deps` holds one
    /// entry per distinct target; on a grammar error `deps` is left empty.
    pub fn parse(&mut self, data: Vec<u8>) -> (r: Result<(), SyntaxError>)
        ensures
            final(self).data@ == data@,
            ({
                match spec_scan(data@) {
                    Some(rules) => r is Ok && deps_view(final(self).deps@) == spec_merge(rules),
                    None => r is Err && final(self).deps@.len() == 0,
                }
            }),
    {
        self.data = data;
        self.deps = Vec::new();
        let res = self.parse_rules();
        match res {
            Ok(()) => {
                proof {
                    match spec_rules(self.data@, 0) {
                        Some(rs) => {
                            assert(deps_view(Seq::<Dependency>::empty())
                                =~= Seq::<RuleView>::empty());
                            assert(deps_view(self.deps@) =~= rs);
                        },
                        None => {},
                    }
                }
                self.merge_deps();
                Ok(())
            },
            Err(e) => {
                self.deps = Vec::new();
                Err(e)
            },
        }
    }
}

} // verus!
