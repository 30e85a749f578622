//! Specification of the rule scanner.
//!
//! The grammar: a rule is `targets ':' prerequisites`, ended by an unescaped
//! newline (or the end of the buffer). Targets and prerequisites are tokens
//! separated by blanks; a backslash makes the following character literal,
//! and a backslash-newline pair counts as whitespace in a prerequisite list
//! (line continuation). A `#` outside a target list starts a comment running
//! to the end of the line; inside a target list it is a fatal syntax error,
//! as is a newline that leaves a target list without its closing colon.
//!
//! The scanner is modelled as three character-class-driven passes over byte
//! offsets: [`spec_targets`] for the target list, [`spec_prereqs`] for the
//! prerequisite list, and [`spec_rules`] for the sequence of rules between
//! which comments and stray whitespace are skipped. Tokens are subranges of
//! the input; escape characters are kept verbatim, as the scanner never
//! copies bytes out of the buffer.

use vstd::prelude::*;

verus! {

/// One scanned rule: a target and the prerequisite tokens of its rule line,
/// in scan order. Also the view of an executable `Dependency`.
#[verifier::ext_equal]
pub struct RuleView {
    pub target: Seq<u8>,
    pub prerequisites: Seq<Seq<u8>>,
}

/// The outcome of scanning one target list: the offset just past the
/// terminating colon (or the buffer end), and the target tokens.
#[verifier::ext_equal]
pub struct TargetsRun {
    pub resume: int,
    pub targets: Seq<Seq<u8>>,
}

/// The outcome of scanning one prerequisite list: the offset where the next
/// rule may start, and the prerequisite tokens in scan order.
#[verifier::ext_equal]
pub struct PrereqsRun {
    pub resume: int,
    pub tokens: Seq<Seq<u8>>,
}

pub const B_TAB: u8 = 9;

pub const B_NL: u8 = 10;

pub const B_SPACE: u8 = 32;

pub const B_HASH: u8 = 35;

pub const B_COLON: u8 = 58;

pub const B_BACKSLASH: u8 = 92;

/// The start of the pending token: its recorded start, or the current offset
/// when no token is pending.
pub open spec fn tok_start(tok: Option<int>, i: int) -> int {
    match tok {
        Some(s) => s,
        None => i,
    }
}

/// Flushes the pending token, if any: the bytes from its start up to `i` are
/// appended to `acc` as one token.
pub open spec fn flush_token(data: Seq<u8>, tok: Option<int>, i: int, acc: Seq<Seq<u8>>) -> Seq<
    Seq<u8>,
> {
    match tok {
        Some(s) => acc.push(data.subrange(s, i)),
        None => acc,
    }
}

/// The offset just past the next newline at or after `i`, capped at the
/// buffer end: where scanning resumes after a comment.
pub open spec fn spec_skip_line(data: Seq<u8>, i: int) -> int
    decreases data.len() - i,
{
    if i < 0 || i >= data.len() {
        data.len() as int
    } else if data[i] == B_NL {
        i + 1
    } else {
        spec_skip_line(data, i + 1)
    }
}

pub proof fn lemma_skip_line_bounds(data: Seq<u8>, i: int)
    requires
        0 <= i <= data.len(),
    ensures
        i <= spec_skip_line(data, i) <= data.len(),
    decreases data.len() - i,
{
    if i < data.len() && data[i] != B_NL {
        lemma_skip_line_bounds(data, i + 1);
    }
}

/// Scan of a target list from offset `i`, with `tok` the start of the pending
/// token and `tgts` the targets already flushed for this rule. `None` is the
/// fatal-error outcome: a comment marker in the target list, or a target list
/// that reaches a newline or the buffer end without its closing colon.
pub open spec fn spec_targets(
    data: Seq<u8>,
    i: int,
    tok: Option<int>,
    tgts: Seq<Seq<u8>>,
) -> Option<TargetsRun>
    decreases data.len() - i,
{
    if i >= data.len() {
        if tok is None && tgts.len() == 0 {
            Some(TargetsRun { resume: data.len() as int, targets: tgts })
        } else {
            None
        }
    } else if data[i] == B_HASH {
        None
    } else if data[i] == B_COLON {
        Some(TargetsRun { resume: i + 1, targets: flush_token(data, tok, i, tgts) })
    } else if data[i] == B_SPACE || data[i] == B_TAB {
        spec_targets(data, i + 1, None, flush_token(data, tok, i, tgts))
    } else if data[i] == B_NL {
        None
    } else if data[i] == B_BACKSLASH {
        if i + 1 >= data.len() || data[i + 1] == B_NL {
            None
        } else {
            spec_targets(data, i + 2, Some(tok_start(tok, i)), tgts)
        }
    } else {
        spec_targets(data, i + 1, Some(tok_start(tok, i)), tgts)
    }
}

pub proof fn lemma_targets_resume(data: Seq<u8>, i: int, tok: Option<int>, tgts: Seq<Seq<u8>>)
    requires
        0 <= i <= data.len(),
    ensures
        spec_targets(data, i, tok, tgts) matches Some(tr) ==> i <= tr.resume <= data.len(),
        i < data.len() ==> (spec_targets(data, i, tok, tgts) matches Some(tr) ==> i + 1
            <= tr.resume),
    decreases data.len() - i,
{
    if i < data.len() {
        if data[i] == B_SPACE || data[i] == B_TAB {
            lemma_targets_resume(data, i + 1, None, flush_token(data, tok, i, tgts));
        } else if data[i] == B_BACKSLASH {
            if i + 1 < data.len() && data[i + 1] != B_NL {
                lemma_targets_resume(data, i + 2, Some(tok_start(tok, i)), tgts);
            }
        } else if data[i] != B_HASH && data[i] != B_COLON && data[i] != B_NL {
            lemma_targets_resume(data, i + 1, Some(tok_start(tok, i)), tgts);
        }
    }
}

/// Scan of a prerequisite list from offset `i`, with `tok` the start of the
/// pending token and `ps` the tokens already flushed. There is no error
/// outcome here: an unescaped newline, a comment running to the end of the
/// line, or the buffer end completes the rule. A backslash-newline pair is
/// whitespace (line continuation); any other escaped character is kept in
/// the token; a backslash between tokens is skipped like a blank.
pub open spec fn spec_prereqs(
    data: Seq<u8>,
    i: int,
    tok: Option<int>,
    ps: Seq<Seq<u8>>,
) -> PrereqsRun
    decreases data.len() - i,
{
    if i >= data.len() {
        PrereqsRun {
            resume: data.len() as int,
            tokens: flush_token(data, tok, data.len() as int, ps),
        }
    } else if data[i] == B_SPACE || data[i] == B_TAB {
        spec_prereqs(data, i + 1, None, flush_token(data, tok, i, ps))
    } else if data[i] == B_NL {
        PrereqsRun { resume: i + 1, tokens: flush_token(data, tok, i, ps) }
    } else if data[i] == B_HASH {
        PrereqsRun { resume: spec_skip_line(data, i + 1), tokens: flush_token(data, tok, i, ps) }
    } else if data[i] == B_BACKSLASH {
        if i + 1 >= data.len() {
            PrereqsRun {
                resume: data.len() as int,
                tokens: flush_token(data, tok, data.len() as int, ps),
            }
        } else if data[i + 1] == B_NL {
            spec_prereqs(data, i + 2, None, flush_token(data, tok, i, ps))
        } else {
            match tok {
                Some(s) => spec_prereqs(data, i + 2, Some(s), ps),
                None => spec_prereqs(data, i + 1, None, ps),
            }
        }
    } else {
        spec_prereqs(data, i + 1, Some(tok_start(tok, i)), ps)
    }
}

pub proof fn lemma_prereqs_resume(data: Seq<u8>, i: int, tok: Option<int>, ps: Seq<Seq<u8>>)
    requires
        0 <= i <= data.len(),
    ensures
        i <= spec_prereqs(data, i, tok, ps).resume <= data.len(),
    decreases data.len() - i,
{
    if i < data.len() {
        if data[i] == B_SPACE || data[i] == B_TAB {
            lemma_prereqs_resume(data, i + 1, None, flush_token(data, tok, i, ps));
        } else if data[i] == B_NL {
        } else if data[i] == B_HASH {
            lemma_skip_line_bounds(data, i + 1);
        } else if data[i] == B_BACKSLASH {
            if i + 1 < data.len() {
                if data[i + 1] == B_NL {
                    lemma_prereqs_resume(data, i + 2, None, flush_token(data, tok, i, ps));
                } else {
                    match tok {
                        Some(s) => lemma_prereqs_resume(data, i + 2, Some(s), ps),
                        None => lemma_prereqs_resume(data, i + 1, None, ps),
                    }
                }
            }
        } else if data[i] != B_NL {
            lemma_prereqs_resume(data, i + 1, Some(tok_start(tok, i)), ps);
        }
    }
}

/// One rule record per target of the rule, each carrying the rule's
/// prerequisite tokens.
pub open spec fn mk_rules(tgts: Seq<Seq<u8>>, ps: Seq<Seq<u8>>) -> Seq<RuleView> {
    tgts.map_values(|t: Seq<u8>| RuleView { target: t, prerequisites: ps })
}

/// Scan of the whole buffer from offset `i`: stray whitespace and comments
/// between rules are skipped, and each rule contributes one record per
/// target. `None` is the whole-input fatal-error outcome.
pub open spec fn spec_rules(data: Seq<u8>, i: int) -> Option<Seq<RuleView>>
    decreases data.len() - i,
    via spec_rules_decreases
{
    if i < 0 || i >= data.len() {
        Some(Seq::empty())
    } else if data[i] == B_NL || data[i] == B_SPACE || data[i] == B_TAB || data[i]
        == B_BACKSLASH {
        spec_rules(data, i + 1)
    } else if data[i] == B_HASH {
        spec_rules(data, spec_skip_line(data, i + 1))
    } else {
        match spec_targets(data, i, None, Seq::empty()) {
            None => None,
            Some(tr) => {
                let pr = spec_prereqs(data, tr.resume, None, Seq::empty());
                match spec_rules(data, pr.resume) {
                    None => None,
                    Some(rest) => Some(mk_rules(tr.targets, pr.tokens) + rest),
                }
            },
        }
    }
}

#[via_fn]
proof fn spec_rules_decreases(data: Seq<u8>, i: int) {
    if 0 <= i < data.len() {
        lemma_skip_line_bounds(data, i + 1);
        lemma_targets_resume(data, i, None, Seq::empty());
        match spec_targets(data, i, None, Seq::empty()) {
            Some(tr) => lemma_prereqs_resume(data, tr.resume, None, Seq::empty()),
            None => (),
        }
    }
}

/// The scan of a whole input buffer.
pub open spec fn spec_scan(data: Seq<u8>) -> Option<Seq<RuleView>> {
    spec_rules(data, 0)
}


/// The outcome of scanning one prerequisite token that started at `s`: the
/// token's bytes, the offset where scanning resumes, and whether the rule
/// ended with this token (at an unescaped newline or a comment).
#[verifier::ext_equal]
pub struct TokenStep {
    pub resume: int,
    pub done: bool,
    pub token: Seq<u8>,
}

/// Scan of one prerequisite token, started at `s`, continuing at `p`.
pub open spec fn spec_prereq_token(data: Seq<u8>, s: int, p: int) -> TokenStep
    decreases data.len() - p,
{
    if p >= data.len() {
        TokenStep { resume: data.len() as int, done: false, token: data.subrange(s, data.len() as int) }
    } else if data[p] == B_SPACE || data[p] == B_TAB {
        TokenStep { resume: p + 1, done: false, token: data.subrange(s, p) }
    } else if data[p] == B_NL {
        TokenStep { resume: p + 1, done: true, token: data.subrange(s, p) }
    } else if data[p] == B_HASH {
        TokenStep { resume: spec_skip_line(data, p + 1), done: true, token: data.subrange(s, p) }
    } else if data[p] == B_BACKSLASH {
        if p + 1 >= data.len() {
            TokenStep {
                resume: data.len() as int,
                done: false,
                token: data.subrange(s, data.len() as int),
            }
        } else if data[p + 1] == B_NL {
            TokenStep { resume: p + 2, done: false, token: data.subrange(s, p) }
        } else {
            spec_prereq_token(data, s, p + 2)
        }
    } else {
        spec_prereq_token(data, s, p + 1)
    }
}

/// The prerequisite scan with a pending token factors through the scan of
/// that one token.
pub proof fn lemma_prereqs_token(data: Seq<u8>, s: int, p: int, ps: Seq<Seq<u8>>)
    requires
        0 <= s <= p <= data.len(),
    ensures
        ({
            let t = spec_prereq_token(data, s, p);
            spec_prereqs(data, p, Some(s), ps) == (if t.done {
                PrereqsRun { resume: t.resume, tokens: ps.push(t.token) }
            } else {
                spec_prereqs(data, t.resume, None, ps.push(t.token))
            })
        }),
    decreases data.len() - p,
{
    if p < data.len() && data[p] == B_BACKSLASH && p + 1 < data.len() && data[p + 1] != B_NL {
        lemma_prereqs_token(data, s, p + 2, ps);
    } else if p < data.len() && data[p] != B_SPACE && data[p] != B_TAB && data[p] != B_NL
        && data[p] != B_HASH && data[p] != B_BACKSLASH {
        lemma_prereqs_token(data, s, p + 1, ps);
    }
}

} // verus!
