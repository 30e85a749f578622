//! JSON output for the merged entry collection.
//!
//! The serializer appends to an owned byte buffer. Entries become objects
//! `{"target": <string>, "prerequisites": [<string>, ...]}` in a top-level
//! array; in every string `\` and `"` are escaped with a backslash and all
//! other bytes pass through unchanged.

use vstd::prelude::*;

use crate::dependency::{deps_view, Dependency};
use crate::scan::RuleView;

verus! {

pub const J_QUOTE: u8 = 34;

pub const J_COMMA: u8 = 44;

pub const J_COLON: u8 = 58;

pub const J_LBRACKET: u8 = 91;

pub const J_BACKSLASH: u8 = 92;

pub const J_RBRACKET: u8 = 93;

pub const J_LBRACE: u8 = 123;

pub const J_RBRACE: u8 = 125;

/// `s` with `\` and `"` escaped by a backslash.
pub open spec fn spec_escape(s: Seq<u8>) -> Seq<u8>
    decreases s.len(),
{
    if s.len() == 0 {
        Seq::empty()
    } else {
        let head: Seq<u8> = if s[0] == J_BACKSLASH || s[0] == J_QUOTE {
            seq![J_BACKSLASH, s[0]]
        } else {
            seq![s[0]]
        };
        head + spec_escape(s.drop_first())
    }
}

pub proof fn lemma_escape_snoc(s: Seq<u8>, x: u8)
    ensures
        spec_escape(s.push(x)) == spec_escape(s) + (if x == J_BACKSLASH || x == J_QUOTE {
            seq![J_BACKSLASH, x]
        } else {
            seq![x]
        }),
    decreases s.len(),
{
    let tail: Seq<u8> = if x == J_BACKSLASH || x == J_QUOTE {
        seq![J_BACKSLASH, x]
    } else {
        seq![x]
    };
    if s.len() == 0 {
        assert(s.push(x)[0] == x);
        assert(s.push(x).drop_first() =~= Seq::<u8>::empty());
        assert(spec_escape(Seq::<u8>::empty()) =~= Seq::<u8>::empty());
        assert(spec_escape(s.push(x)) =~= tail);
        assert(spec_escape(s) + tail =~= tail);
    } else {
        assert(s.push(x)[0] == s[0]);
        assert(s.push(x).drop_first() =~= s.drop_first().push(x));
        lemma_escape_snoc(s.drop_first(), x);
        let head: Seq<u8> = if s[0] == J_BACKSLASH || s[0] == J_QUOTE {
            seq![J_BACKSLASH, s[0]]
        } else {
            seq![s[0]]
        };
        assert(head + (spec_escape(s.drop_first()) + tail) =~= (head + spec_escape(
            s.drop_first(),
        )) + tail);
    }
}

/// A JSON string: quote, escaped bytes, quote.
pub open spec fn spec_json_str(s: Seq<u8>) -> Seq<u8> {
    seq![J_QUOTE] + spec_escape(s) + seq![J_QUOTE]
}

/// The bytes of the object key `"target":`.
pub open spec fn lit_target_key() -> Seq<u8> {
    seq![34u8, 116u8, 97u8, 114u8, 103u8, 101u8, 116u8, 34u8, 58u8]
}

/// The bytes of `,"prerequisites":[`.
pub open spec fn lit_prereq_key() -> Seq<u8> {
    seq![
        44u8,
        34u8,
        112u8,
        114u8,
        101u8,
        114u8,
        101u8,
        113u8,
        117u8,
        105u8,
        115u8,
        105u8,
        116u8,
        101u8,
        115u8,
        34u8,
        58u8,
        91u8,
    ]
}

/// The comma-separated JSON strings of a token list.
pub open spec fn spec_json_tokens(ps: Seq<Seq<u8>>) -> Seq<u8>
    decreases ps.len(),
{
    if ps.len() == 0 {
        Seq::empty()
    } else {
        spec_json_tokens(ps.drop_last()) + (if ps.len() == 1 {
            Seq::<u8>::empty()
        } else {
            seq![J_COMMA]
        }) + spec_json_str(ps.last())
    }
}

/// One entry as a JSON object.
pub open spec fn spec_json_entry(d: RuleView) -> Seq<u8> {
    seq![J_LBRACE] + lit_target_key() + spec_json_str(d.target) + lit_prereq_key()
        + spec_json_tokens(d.prerequisites) + seq![J_RBRACKET, J_RBRACE]
}

/// The comma-separated JSON objects of an entry collection.
pub open spec fn spec_json_entries(s: Seq<RuleView>) -> Seq<u8>
    decreases s.len(),
{
    if s.len() == 0 {
        Seq::empty()
    } else {
        spec_json_entries(s.drop_last()) + (if s.len() == 1 {
            Seq::<u8>::empty()
        } else {
            seq![J_COMMA]
        }) + spec_json_entry(s.last())
    }
}

/// A whole entry collection as a JSON array.
pub open spec fn spec_json_vec(s: Seq<RuleView>) -> Seq<u8> {
    seq![J_LBRACKET] + spec_json_entries(s) + seq![J_RBRACKET]
}

/// The serializer: an owned output buffer that the write calls append to.
pub struct JsonSerializer {
    pub buf: Vec<u8>,
}

impl JsonSerializer {
    pub fn new() -> (r: Self)
        ensures
            r.buf@ == Seq::<u8>::empty(),
    {
        JsonSerializer { buf: Vec::new() }
    }

    /// The bytes written so far.
    pub fn get_json(&self) -> (r: &[u8])
        ensures
            r@ == self.buf@,
    {
        self.buf.as_slice()
    }

    /// Appends `data` as a JSON string, `\` and `"` escaped.
    pub fn write_str(&mut self, data: &Vec<u8>)
        ensures
            final(self).buf@ == old(self).buf@ + spec_json_str(data@),
    {
        self.buf.push(J_QUOTE);
        let mut i: usize = 0;
        proof {
            assert(data@.take(0) =~= Seq::<u8>::empty());
            assert(spec_escape(Seq::<u8>::empty()) =~= Seq::<u8>::empty());
            assert(self.buf@ =~= old(self).buf@ + seq![J_QUOTE] + spec_escape(data@.take(0)));
        }
        while i < data.len()
            invariant
                i <= data@.len(),
                self.buf@ == old(self).buf@ + seq![J_QUOTE] + spec_escape(data@.take(i as int)),
            decreases data@.len() - i,
        {
            let b = data[i];
            if b == J_BACKSLASH || b == J_QUOTE {
                self.buf.push(J_BACKSLASH);
                self.buf.push(b);
            } else {
                self.buf.push(b);
            }
            proof {
                lemma_escape_snoc(data@.take(i as int), data@[i as int]);
                assert(data@.take(i + 1) =~= data@.take(i as int).push(data@[i as int]));
                if b == J_BACKSLASH || b == J_QUOTE {
                    assert(self.buf@ =~= old(self).buf@ + seq![J_QUOTE] + spec_escape(data@.take(
                        i + 1,
                    )));
                } else {
                    assert(self.buf@ =~= old(self).buf@ + seq![J_QUOTE] + spec_escape(data@.take(
                        i + 1,
                    )));
                }
            }
            i = i + 1;
        }
        self.buf.push(J_QUOTE);
        proof {
            assert(data@.take(data@.len() as int) =~= data@);
            assert(self.buf@ =~= old(self).buf@ + spec_json_str(data@));
        }
    }

    /// Appends `"target":`.
    fn put_target_key(&mut self)
        ensures
            final(self).buf@ == old(self).buf@ + lit_target_key(),
    {
        self.buf.push(34);
        self.buf.push(116);
        self.buf.push(97);
        self.buf.push(114);
        self.buf.push(103);
        self.buf.push(101);
        self.buf.push(116);
        self.buf.push(34);
        self.buf.push(58);
        proof {
            assert(self.buf@ =~= old(self).buf@ + lit_target_key());
        }
    }

    /// Appends `,"prerequisites":[`.
    fn put_prereq_key(&mut self)
        ensures
            final(self).buf@ == old(self).buf@ + lit_prereq_key(),
    {
        self.buf.push(44);
        self.buf.push(34);
        self.buf.push(112);
        self.buf.push(114);
        self.buf.push(101);
        self.buf.push(114);
        self.buf.push(101);
        self.buf.push(113);
        self.buf.push(117);
        self.buf.push(105);
        self.buf.push(115);
        self.buf.push(105);
        self.buf.push(116);
        self.buf.push(101);
        self.buf.push(115);
        self.buf.push(34);
        self.buf.push(58);
        self.buf.push(91);
        proof {
            assert(self.buf@ =~= old(self).buf@ + lit_prereq_key());
        }
    }

    /// Appends the whole entry collection as a JSON array.
    pub fn write_vec(&mut self, vec: &Vec<Dependency>)
        ensures
            final(self).buf@ == old(self).buf@ + spec_json_vec(deps_view(vec@)),
    {
        self.buf.push(J_LBRACKET);
        let ghost entries = deps_view(vec@);
        let mut i: usize = 0;
        proof {
            assert(entries.take(0) =~= Seq::<RuleView>::empty());
            assert(spec_json_entries(Seq::<RuleView>::empty()) =~= Seq::<u8>::empty());
            assert(self.buf@ =~= old(self).buf@ + seq![J_LBRACKET] + spec_json_entries(
                entries.take(0),
            ));
        }
        while i < vec.len()
            invariant
                i <= vec@.len(),
                entries == deps_view(vec@),
                self.buf@ == old(self).buf@ + seq![J_LBRACKET] + spec_json_entries(
                    entries.take(i as int),
                ),
            decreases vec@.len() - i,
        {
            let ghost pre = self.buf@;
            if i != 0 {
                self.buf.push(J_COMMA);
            }
            self.buf.push(J_LBRACE);
            self.put_target_key();
            self.write_str(&vec[i].target);
            self.put_prereq_key();
            let ghost d = entries[i as int];
            proof {
                assert(d == vec@[i as int]@);
                assert(d.target == vec@[i as int].target@);
            }
            let ghost mid = self.buf@;
            let mut j: usize = 0;
            proof {
                assert(d.prerequisites.take(0) =~= Seq::<Seq<u8>>::empty());
                assert(spec_json_tokens(Seq::<Seq<u8>>::empty()) =~= Seq::<u8>::empty());
                assert(self.buf@ =~= mid + spec_json_tokens(d.prerequisites.take(0)));
            }
            while j < vec[i].prerequisites.len()
                invariant
                    i < vec@.len(),
                    j <= vec@[i as int].prerequisites@.len(),
                    d == deps_view(vec@)[i as int],
                    d.prerequisites.len() == vec@[i as int].prerequisites@.len(),
                    self.buf@ == mid + spec_json_tokens(d.prerequisites.take(j as int)),
                decreases vec@[i as int].prerequisites@.len() - j,
            {
                if j != 0 {
                    self.buf.push(J_COMMA);
                }
                self.write_str(&vec[i].prerequisites[j]);
                proof {
                    assert(vec@[i as int].prerequisites@[j as int]@ =~= d.prerequisites[j as int]);
                    assert(d.prerequisites.take(j + 1) =~= d.prerequisites.take(j as int).push(
                        d.prerequisites[j as int],
                    ));
                    assert(d.prerequisites.take(j + 1).drop_last() =~= d.prerequisites.take(
                        j as int,
                    ));
                    assert(self.buf@ =~= mid + spec_json_tokens(d.prerequisites.take(j + 1)));
                }
                j = j + 1;
            }
            self.buf.push(J_RBRACKET);
            self.buf.push(J_RBRACE);
            proof {
                assert(d.prerequisites.take(d.prerequisites.len() as int) =~= d.prerequisites);
                assert(entries.take(i + 1) =~= entries.take(i as int).push(entries[i as int]));
                assert(entries.take(i + 1).drop_last() =~= entries.take(i as int));
                assert(self.buf@ =~= pre + (if i == 0 {
                    Seq::<u8>::empty()
                } else {
                    seq![J_COMMA]
                }) + spec_json_entry(d));
                assert(self.buf@ =~= old(self).buf@ + seq![J_LBRACKET] + spec_json_entries(
                    entries.take(i + 1),
                ));
            }
            i = i + 1;
        }
        self.buf.push(J_RBRACKET);
        proof {
            assert(entries.take(entries.len() as int) =~= entries);
            assert(self.buf@ =~= old(self).buf@ + spec_json_vec(entries));
        }
    }
}

} // verus!
