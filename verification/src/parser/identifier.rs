use vstd::prelude::*;

use crate::ir::node::Ident;

use super::{fragment, ws_end, ParserContext, ParserError, ParserErrorKind, Res};

verus! {

/// Whether a character is alphabetic in the sense of `char::is_alphabetic`.
pub uninterp spec fn spec_is_alphabetic(c: char) -> bool;

/// Whether a character is alphanumeric in the sense of `char::is_alphanumeric`.
pub uninterp spec fn spec_is_alphanumeric(c: char) -> bool;

/// `char::is_alphabetic`.
#[verifier::external_body]
pub(crate) fn is_alphabetic(c: char) -> (r: bool)
    ensures
        r == spec_is_alphabetic(c),
{
    c.is_alphabetic()
}

/// `char::is_alphanumeric`.
#[verifier::external_body]
pub(crate) fn is_alphanumeric(c: char) -> (r: bool)
    ensures
        r == spec_is_alphanumeric(c),
{
    c.is_alphanumeric()
}

/// A character that may start an identifier.
pub open spec fn ident_start(c: char) -> bool {
    spec_is_alphabetic(c) || c == '_' || c == '$'
}

/// A character that may continue an identifier.
pub open spec fn ident_char(c: char) -> bool {
    spec_is_alphanumeric(c) || c == '_' || c == '$'
}

/// The end of the run of identifier characters that starts at `i`.
pub open spec fn ident_end(s: Seq<char>, i: int) -> int
    decreases s.len() - i,
{
    if i < 0 || i >= s.len() || !ident_char(s[i]) {
        i
    } else {
        ident_end(s, i + 1)
    }
}

proof fn lemma_ident_end(s: Seq<char>, i: int)
    requires
        0 <= i <= s.len(),
    ensures
        i <= ident_end(s, i) <= s.len(),
    decreases s.len() - i,
{
    if i < s.len() && ident_char(s[i]) {
        lemma_ident_end(s, i + 1);
    }
}

/// The words that cannot be identifiers.
pub open spec fn is_reserved(w: Seq<char>) -> bool {
    ||| w == seq!['s', 't', 'r', 'u', 'c', 't']
    ||| w == seq!['f', 'u', 'n', 'c']
    ||| w == seq!['r', 'e', 't', 'u', 'r', 'n']
    ||| w == seq!['l', 'e', 't']
    ||| w == seq!['v', 'a', 'r']
    ||| w == seq!['t', 'r', 'u', 'e']
    ||| w == seq!['f', 'a', 'l', 's', 'e']
}

fn reserved_keywords() -> (r: Vec<Vec<char>>)
    ensures
        forall|w: Seq<char>| is_reserved(w) <==> exists|k: int| 0 <= k < r@.len() && (#[trigger] r@[k])@ == w,
{
    let r = vec![
        vec!['s', 't', 'r', 'u', 'c', 't'],
        vec!['f', 'u', 'n', 'c'],
        vec!['r', 'e', 't', 'u', 'r', 'n'],
        vec!['l', 'e', 't'],
        vec!['v', 'a', 'r'],
        vec!['t', 'r', 'u', 'e'],
        vec!['f', 'a', 'l', 's', 'e'],
    ];
    assert forall|w: Seq<char>| is_reserved(w) implies exists|k: int| 0 <= k < r@.len() && (#[trigger] r@[k])@ == w by {
        if w == seq!['s', 't', 'r', 'u', 'c', 't'] {
            assert(r@[0]@ =~= w);
        } else if w == seq!['f', 'u', 'n', 'c'] {
            assert(r@[1]@ =~= w);
        } else if w == seq!['r', 'e', 't', 'u', 'r', 'n'] {
            assert(r@[2]@ =~= w);
        } else if w == seq!['l', 'e', 't'] {
            assert(r@[3]@ =~= w);
        } else if w == seq!['v', 'a', 'r'] {
            assert(r@[4]@ =~= w);
        } else if w == seq!['t', 'r', 'u', 'e'] {
            assert(r@[5]@ =~= w);
        } else {
            assert(r@[6]@ =~= w);
        }
    }
    assert forall|w: Seq<char>| (exists|k: int| 0 <= k < r@.len() && (#[trigger] r@[k])@ == w) implies is_reserved(w) by {
        let k = choose|k: int| 0 <= k < r@.len() && (#[trigger] r@[k])@ == w;
        if k == 0 {
            assert(w =~= seq!['s', 't', 'r', 'u', 'c', 't']);
        } else if k == 1 {
            assert(w =~= seq!['f', 'u', 'n', 'c']);
        } else if k == 2 {
            assert(w =~= seq!['r', 'e', 't', 'u', 'r', 'n']);
        } else if k == 3 {
            assert(w =~= seq!['l', 'e', 't']);
        } else if k == 4 {
            assert(w =~= seq!['v', 'a', 'r']);
        } else if k == 5 {
            assert(w =~= seq!['t', 'r', 'u', 'e']);
        } else {
            assert(w =~= seq!['f', 'a', 'l', 's', 'e']);
        }
    }
    r
}

/// An identifier at `i`: after optional whitespace, the longest run of
/// identifier characters that starts with a letter, `_` or `$`, unless it is a
/// reserved word; the whitespace after it is read too.
pub open spec fn spec_identifier(s: Seq<char>, i: int) -> Option<(int, int, int)> {
    let a = ws_end(s, i);
    let b = ident_end(s, a + 1);
    if a < s.len() && ident_start(s[a]) && !is_reserved(s.subrange(a, b)) {
        Some((a, b, ws_end(s, b)))
    } else {
        None
    }
}

impl ParserContext {
    fn ident_char_at(&self, b: usize) -> (r: bool)
        requires
            self.wf(),
            b < self.source@.len(),
        ensures
            r == ident_char(self.source@[b as int]),
    {
        let d = self.source[b];
        is_alphanumeric(d) || d == '_' || d == '$'
    }

    /// Reads an identifier.
    pub fn identifier(&self, i: usize) -> (r: Res<Ident>)
        requires
            self.wf(),
            i <= self.source@.len(),
        ensures
            r is Ok <==> spec_identifier(self.source@, i as int) is Some,
            r matches Err(e) ==> e.kind == ParserErrorKind::Identifier,
            r matches Ok((j, id)) ==> {
                let (a, b, e) = spec_identifier(self.source@, i as int)->0;
                &&& j == e
                &&& id.span.start == a
                &&& id.span.end == b
                &&& id.name@ == self.source@.subrange(a, b)
                &&& id.name@ == fragment(self.source@, id.span)
                &&& i < j <= self.source@.len()
                &&& a < b
            },
    {
        let a = self.ws0(i);
        if a >= self.source.len() {
            return Err(ParserError { offset: a, kind: ParserErrorKind::Identifier });
        }
        let c = self.source[a];
        if !(is_alphabetic(c) || c == '_' || c == '$') {
            return Err(ParserError { offset: a, kind: ParserErrorKind::Identifier });
        }
        let mut b = a + 1;
        let mut name: Vec<char> = Vec::new();
        name.push(c);
        proof {
            lemma_ident_end(self.source@, a + 1);
            assert(name@ =~= self.source@.subrange(a as int, b as int));
        }
        while b < self.source.len() && self.ident_char_at(b)
            invariant
                self.wf(),
                a == ws_end(self.source@, i as int),
                a < self.source@.len(),
                ident_start(self.source@[a as int]),
                a < b <= self.source@.len(),
                ident_end(self.source@, a + 1) == ident_end(self.source@, b as int),
                name@ == self.source@.subrange(a as int, b as int),
            decreases self.source@.len() - b,
        {
            name.push(self.source[b]);
            b = b + 1;
            assert(name@ =~= self.source@.subrange(a as int, b as int));
        }
        assert(ident_end(self.source@, b as int) == b);
        let keywords = reserved_keywords();
        let mut k: usize = 0;
        while k < keywords.len()
            invariant
                a == ws_end(self.source@, i as int),
                a < self.source@.len(),
                ident_start(self.source@[a as int]),
                b == ident_end(self.source@, a + 1),
                a < b <= self.source@.len(),
                name@ == self.source@.subrange(a as int, b as int),
                forall|w: Seq<char>| is_reserved(w) <==> exists|m: int| 0 <= m < keywords@.len() && (#[trigger] keywords@[m])@ == w,
                k <= keywords@.len(),
                forall|m: int| 0 <= m < k ==> (#[trigger] keywords@[m])@ != name@,
            decreases keywords@.len() - k,
        {
            if crate::ir::text::chars_eq(&keywords[k], &name) {
                assert(keywords@[k as int]@ == name@);
                assert(is_reserved(name@));
                return Err(ParserError { offset: a, kind: ParserErrorKind::Identifier });
            }
            k = k + 1;
        }
        assert(!is_reserved(name@));
        let span = self.span(a, b);
        let j = self.ws0(b);
        Ok((j, Ident { name, span }))
    }
}

} // verus!

verus! {

/// Whether a character is whitespace in the sense of `char::is_whitespace`.
pub uninterp spec fn spec_is_whitespace(c: char) -> bool;

/// `char::is_whitespace`.
#[verifier::external_body]
pub(crate) fn is_whitespace(c: char) -> (r: bool)
    ensures
        r == spec_is_whitespace(c),
{
    c.is_whitespace()
}

} // verus!
