//! Quoting for POSIX `sh`/`bash`-style shells.
//!
//! A value is escaped by wrapping it in single quotes, the shell's only fully
//! literal quoting mechanism. Two bytes need care inside a single-quoted span:
//! a literal `'` (which would close the span) and a literal `!` (which
//! interactive shells with history expansion treat specially even inside
//! single quotes). Each such byte is spliced in as `'\X'`: close the quote,
//! emit a backslash-escaped copy, reopen the quote. Every other byte passes
//! through unchanged, including bytes that are not valid UTF-8.
//!
//! A non-empty input made only of bytes from a conservative allowed set
//! (letters, digits, `-`, `_`, `=`, `/`, `,`, `.`, `+`) needs no quoting and
//! is returned unchanged.

use vstd::prelude::*;

verus! {

/// A single quote, `'`.
pub const SQ: u8 = 39;
/// A backslash, `\`.
pub const BSL: u8 = 92;
/// An exclamation mark, `!`.
pub const BANG: u8 = 33;

/// A byte that may stand unquoted in a command line: ASCII letters and digits,
/// and `-`, `_`, `=`, `/`, `,`, `.`, `+`. The set is deliberately conservative:
/// a few further bytes are in fact shell-safe, but quoting them does no harm.
pub open spec fn allowed_spec(b: u8) -> bool {
    (97 <= b && b <= 122)  // 'a'..='z'
    || (65 <= b && b <= 90)  // 'A'..='Z'
    || (48 <= b && b <= 57)  // '0'..='9'
    || b == 45  // '-'
    || b == 95  // '_'
    || b == 61  // '='
    || b == 47  // '/'
    || b == 44  // ','
    || b == 46  // '.'
    || b == 43  // '+'
}

/// Decides [`allowed_spec`] for one byte.
pub fn allowed(b: u8) -> (r: bool)
    ensures
        r == allowed_spec(b),
{
    (97 <= b && b <= 122) || (65 <= b && b <= 90) || (48 <= b && b <= 57) || b == 45 || b == 95
        || b == 61 || b == 47 || b == 44 || b == 46 || b == 43
}

/// What one byte becomes inside the single-quoted span: `'` and `!` are spliced
/// in as close-quote, backslash, the byte, open-quote; every other byte stands
/// as itself.
pub open spec fn quoted_byte(b: u8) -> Seq<u8> {
    if b == SQ || b == BANG {
        seq![SQ, BSL, b, SQ]
    } else {
        seq![b]
    }
}

/// The body of the quoted form: each input byte expanded by [`quoted_byte`],
/// in order.
pub open spec fn quoted_body(s: Seq<u8>) -> Seq<u8>
    decreases s.len(),
{
    if s.len() == 0 {
        Seq::<u8>::empty()
    } else {
        quoted_byte(s[0]) + quoted_body(s.skip(1))
    }
}

/// The fully quoted form: the expanded body wrapped in single quotes.
pub open spec fn quoted(s: Seq<u8>) -> Seq<u8> {
    seq![SQ] + quoted_body(s) + seq![SQ]
}

/// What [`escape`] returns: the input itself when it is non-empty and entirely
/// allowed, otherwise the quoted form.
pub open spec fn escape_spec(s: Seq<u8>) -> Seq<u8> {
    if s.len() > 0 && (forall|i: int| 0 <= i < s.len() ==> allowed_spec(s[i])) {
        s
    } else {
        quoted(s)
    }
}

proof fn lemma_quoted_body_snoc(s: Seq<u8>, b: u8)
    ensures
        quoted_body(s.push(b)) == quoted_body(s) + quoted_byte(b),
    decreases s.len(),
{
    let sp = s.push(b);
    if s.len() == 0 {
        assert(sp[0] == b);
        assert(sp.skip(1) =~= Seq::<u8>::empty());
        assert(quoted_body(sp) == quoted_byte(b) + quoted_body(Seq::<u8>::empty()));
        assert(quoted_body(Seq::<u8>::empty()) == Seq::<u8>::empty());
        assert(quoted_byte(b) + Seq::<u8>::empty() =~= quoted_byte(b));
        assert(Seq::<u8>::empty() + quoted_byte(b) =~= quoted_byte(b));
    } else {
        assert(sp[0] == s[0]);
        assert(sp.skip(1) =~= s.skip(1).push(b));
        assert(quoted_body(sp) == quoted_byte(s[0]) + quoted_body(s.skip(1).push(b)));
        lemma_quoted_body_snoc(s.skip(1), b);
        assert(quoted_body(s) == quoted_byte(s[0]) + quoted_body(s.skip(1)));
        assert(quoted_byte(s[0]) + (quoted_body(s.skip(1)) + quoted_byte(b)) =~= (quoted_byte(
            s[0],
        ) + quoted_body(s.skip(1))) + quoted_byte(b));
    }
}

/// Escapes a byte sequence so that a POSIX shell reads it as one literal token.
/// Returns the input unchanged when it is non-empty and every byte is allowed,
/// otherwise the single-quoted form.
pub fn escape(s: &Vec<u8>) -> (r: Vec<u8>)
    ensures
        r@ == escape_spec(s@),
{
    let mut safe: bool = s.len() > 0;
    let mut i: usize = 0;
    while i < s.len()
        invariant
            i <= s@.len(),
            safe == (s@.len() > 0 && (forall|j: int| 0 <= j < i ==> allowed_spec(s@[j]))),
        decreases s@.len() - i,
    {
        if !allowed(s[i]) {
            safe = false;
        }
        i += 1;
    }
    if safe {
        let mut out: Vec<u8> = Vec::with_capacity(s.len());
        let mut i: usize = 0;
        while i < s.len()
            invariant
                i <= s@.len(),
                out@ == s@.subrange(0, i as int),
            decreases s@.len() - i,
        {
            out.push(s[i]);
            proof {
                assert(s@.subrange(0, i as int).push(s@[i as int]) =~= s@.subrange(
                    0,
                    i as int + 1,
                ));
            }
            i += 1;
        }
        proof {
            assert(s@.subrange(0, s@.len() as int) =~= s@);
        }
        return out;
    }
    let mut out: Vec<u8> = Vec::with_capacity(s.len());
    out.push(SQ);
    proof {
        assert(s@.subrange(0, 0) =~= Seq::<u8>::empty());
        assert(out@ =~= seq![SQ] + quoted_body(s@.subrange(0, 0)));
    }
    let mut i: usize = 0;
    while i < s.len()
        invariant
            i <= s@.len(),
            out@ == seq![SQ] + quoted_body(s@.subrange(0, i as int)),
        decreases s@.len() - i,
    {
        let b = s[i];
        if b == SQ || b == BANG {
            out.push(SQ);
            out.push(BSL);
            out.push(b);
            out.push(SQ);
        } else {
            out.push(b);
        }
        proof {
            lemma_quoted_body_snoc(s@.subrange(0, i as int), s@[i as int]);
            assert(s@.subrange(0, i as int).push(s@[i as int]) =~= s@.subrange(0, i as int + 1));
            assert(out@ =~= seq![SQ] + quoted_body(s@.subrange(0, i as int + 1)));
        }
        i += 1;
    }
    out.push(SQ);
    proof {
        assert(s@.subrange(0, s@.len() as int) =~= s@);
        assert(out@ =~= quoted(s@));
    }
    out
}

/// Prepends `p` to the token inside `o`, when there is one.
pub open spec fn opt_prepend(p: Seq<u8>, o: Option<Seq<u8>>) -> Option<Seq<u8>> {
    match o {
        Option::Some(r) => Option::Some(p + r),
        Option::None => Option::None,
    }
}

/// A model of a POSIX shell reading one word, outside quotes. A single quote
/// opens a literal span, a backslash makes the next byte literal, an allowed
/// byte stands for itself, and anything else is refused (`None`): it could be
/// whitespace splitting the word or a metacharacter the shell would interpret,
/// so the model only accepts words it is sure are one literal token.
pub open spec fn tok_unquoted(s: Seq<u8>) -> Option<Seq<u8>>
    decreases s.len(),
{
    if s.len() == 0 {
        Option::Some(Seq::<u8>::empty())
    } else if s[0] == SQ {
        tok_single(s.skip(1))
    } else if s[0] == BSL {
        if s.len() >= 2 {
            opt_prepend(seq![s[1]], tok_unquoted(s.skip(2)))
        } else {
            Option::None
        }
    } else if allowed_spec(s[0]) {
        opt_prepend(seq![s[0]], tok_unquoted(s.skip(1)))
    } else {
        Option::None
    }
}

/// A model of a POSIX shell reading one word, inside a single-quoted span:
/// every byte is literal until the closing quote; an unterminated span is
/// refused.
pub open spec fn tok_single(s: Seq<u8>) -> Option<Seq<u8>>
    decreases s.len(),
{
    if s.len() == 0 {
        Option::None
    } else if s[0] == SQ {
        tok_unquoted(s.skip(1))
    } else {
        opt_prepend(seq![s[0]], tok_single(s.skip(1)))
    }
}

proof fn lemma_opt_prepend_assoc(a: Seq<u8>, b: Seq<u8>, o: Option<Seq<u8>>)
    ensures
        opt_prepend(a, opt_prepend(b, o)) == opt_prepend(a + b, o),
{
    match o {
        Option::Some(r) => {
            assert(a + (b + r) =~= (a + b) + r);
        },
        Option::None => {},
    }
}

proof fn lemma_tok_single_body(s: Seq<u8>, t: Seq<u8>)
    ensures
        tok_single(quoted_body(s) + seq![SQ] + t) == opt_prepend(s, tok_unquoted(t)),
    decreases s.len(),
{
    let arg = quoted_body(s) + seq![SQ] + t;
    if s.len() == 0 {
        assert(arg =~= seq![SQ] + t);
        assert(arg[0] == SQ);
        assert(arg.skip(1) =~= t);
        assert(tok_single(arg) == tok_unquoted(t));
        match tok_unquoted(t) {
            Option::Some(r) => {
                assert(s + r =~= r);
            },
            Option::None => {},
        }
    } else {
        let b = s[0];
        let s1 = s.skip(1);
        assert(quoted_body(s) == quoted_byte(b) + quoted_body(s1));
        assert(seq![b] + s1 =~= s);
        if b == SQ || b == BANG {
            assert(arg =~= seq![SQ, BSL, b, SQ] + (quoted_body(s1) + seq![SQ] + t));
            assert(arg[0] == SQ);
            let a1 = arg.skip(1);
            assert(a1 =~= seq![BSL, b, SQ] + (quoted_body(s1) + seq![SQ] + t));
            assert(tok_single(arg) == tok_unquoted(a1));
            assert(a1[0] == BSL && a1[0] != SQ && a1.len() >= 2);
            assert(a1[1] == b);
            let a2 = a1.skip(2);
            assert(a2 =~= seq![SQ] + (quoted_body(s1) + seq![SQ] + t));
            assert(tok_unquoted(a1) == opt_prepend(seq![b], tok_unquoted(a2)));
            assert(a2[0] == SQ);
            assert(a2.skip(1) =~= quoted_body(s1) + seq![SQ] + t);
            assert(tok_unquoted(a2) == tok_single(quoted_body(s1) + seq![SQ] + t));
            lemma_tok_single_body(s1, t);
            lemma_opt_prepend_assoc(seq![b], s1, tok_unquoted(t));
        } else {
            assert(arg =~= seq![b] + (quoted_body(s1) + seq![SQ] + t));
            assert(arg[0] == b && b != SQ);
            assert(arg.skip(1) =~= quoted_body(s1) + seq![SQ] + t);
            assert(tok_single(arg) == opt_prepend(
                seq![b],
                tok_single(quoted_body(s1) + seq![SQ] + t),
            ));
            lemma_tok_single_body(s1, t);
            lemma_opt_prepend_assoc(seq![b], s1, tok_unquoted(t));
        }
    }
}

proof fn lemma_tok_unquoted_allowed(s: Seq<u8>)
    requires
        forall|i: int| 0 <= i < s.len() ==> allowed_spec(s[i]),
    ensures
        tok_unquoted(s) == Option::Some(s),
    decreases s.len(),
{
    if s.len() == 0 {
        assert(s =~= Seq::<u8>::empty());
    } else {
        assert(allowed_spec(s[0]));
        assert(s[0] != SQ && s[0] != BSL);
        lemma_tok_unquoted_allowed(s.skip(1));
        assert(seq![s[0]] + s.skip(1) =~= s);
    }
}

/// Law: round trip. Writing the escaped form into a command line and reading
/// it back with the shell's word rules — as [`tok_unquoted`] models them —
/// yields exactly the original bytes, as one token, for every input.
pub proof fn lemma_escape_round_trip(s: Seq<u8>)
    ensures
        tok_unquoted(escape_spec(s)) == Option::Some(s),
{
    if s.len() > 0 && (forall|i: int| 0 <= i < s.len() ==> allowed_spec(s[i])) {
        lemma_tok_unquoted_allowed(s);
    } else {
        let arg = quoted(s);
        assert(arg[0] == SQ);
        assert(arg.skip(1) =~= quoted_body(s) + seq![SQ] + Seq::<u8>::empty());
        assert(tok_unquoted(arg) == tok_single(quoted_body(s) + seq![SQ] + Seq::<u8>::empty()));
        lemma_tok_single_body(s, Seq::<u8>::empty());
        assert(tok_unquoted(Seq::<u8>::empty()) == Option::Some(Seq::<u8>::empty()));
        assert(s + Seq::<u8>::empty() =~= s);
    }
}

proof fn lemma_quoted_body_len(s: Seq<u8>)
    ensures
        quoted_body(s).len() >= s.len(),
    decreases s.len(),
{
    if s.len() > 0 {
        lemma_quoted_body_len(s.skip(1));
    }
}

/// Law: idempotence of the safety check. Escaping returns its input unchanged
/// only when the input is non-empty and every byte lies in the allowed set.
pub proof fn lemma_escape_identity(s: Seq<u8>)
    requires
        escape_spec(s) == s,
    ensures
        s.len() > 0,
        forall|i: int| 0 <= i < s.len() ==> allowed_spec(s[i]),
{
    if !(s.len() > 0 && (forall|i: int| 0 <= i < s.len() ==> allowed_spec(s[i]))) {
        lemma_quoted_body_len(s);
        assert(quoted(s).len() >= s.len() + 2);
        assert(false);
    }
}

/// Reads one word the way the tokenizer model does: the executable form of
/// [`tok_unquoted`]. Returns the word's bytes, or `None` where the model
/// refuses the input. Feeding it an escaped value returns the original bytes,
/// which lets the round-trip law be exercised on concrete values.
pub fn unquote(s: &Vec<u8>) -> (r: Option<Vec<u8>>)
    ensures
        match r {
            Option::Some(v) => tok_unquoted(s@) == Option::Some(v@),
            Option::None => tok_unquoted(s@) == Option::<Seq<u8>>::None,
        },
{
    let mut out: Vec<u8> = Vec::with_capacity(s.len());
    let mut in_sq: bool = false;
    let mut i: usize = 0;
    let n: usize = s.len();
    proof {
        assert(s@.skip(0) =~= s@);
        assert(Seq::<u8>::empty() + s@ =~= s@);
    }
    while i < n
        invariant
            i <= s@.len(),
            n == s@.len(),
            tok_unquoted(s@) == opt_prepend(
                out@,
                if in_sq {
                    tok_single(s@.skip(i as int))
                } else {
                    tok_unquoted(s@.skip(i as int))
                },
            ),
        decreases s@.len() - i,
    {
        let ghost pre = s@.skip(i as int);
        let b = s[i];
        assert(pre[0] == b);
        if in_sq {
            if b == SQ {
                in_sq = false;
                proof {
                    assert(pre.skip(1) =~= s@.skip(i as int + 1));
                }
                i += 1;
            } else {
                out.push(b);
                proof {
                    assert(pre.skip(1) =~= s@.skip(i as int + 1));
                    assert(tok_single(pre) == opt_prepend(
                        seq![b],
                        tok_single(s@.skip(i as int + 1)),
                    ));
                    match tok_single(s@.skip(i as int + 1)) {
                        Option::Some(v) => {
                            assert(out@.drop_last() + (seq![b] + v) =~= out@ + v);
                        },
                        Option::None => {},
                    }
                }
                i += 1;
            }
        } else {
            if b == SQ {
                in_sq = true;
                proof {
                    assert(pre.skip(1) =~= s@.skip(i as int + 1));
                }
                i += 1;
            } else if b == BSL {
                if i + 1 < s.len() {
                    let c = s[i + 1];
                    out.push(c);
                    proof {
                        assert(pre[1] == c);
                        assert(pre.skip(2) =~= s@.skip(i as int + 2));
                        assert(tok_unquoted(pre) == opt_prepend(
                            seq![c],
                            tok_unquoted(s@.skip(i as int + 2)),
                        ));
                        match tok_unquoted(s@.skip(i as int + 2)) {
                            Option::Some(v) => {
                                assert(out@.drop_last() + (seq![c] + v) =~= out@ + v);
                            },
                            Option::None => {},
                        }
                    }
                    i += 2;
                } else {
                    return None;
                }
            } else if allowed(b) {
                out.push(b);
                proof {
                    assert(pre.skip(1) =~= s@.skip(i as int + 1));
                    assert(tok_unquoted(pre) == opt_prepend(
                        seq![b],
                        tok_unquoted(s@.skip(i as int + 1)),
                    ));
                    match tok_unquoted(s@.skip(i as int + 1)) {
                        Option::Some(v) => {
                            assert(out@.drop_last() + (seq![b] + v) =~= out@ + v);
                        },
                        Option::None => {},
                    }
                }
                i += 1;
            } else {
                return None;
            }
        }
    }
    proof {
        assert(s@.skip(s@.len() as int) =~= Seq::<u8>::empty());
    }
    if in_sq {
        None
    } else {
        proof {
            assert(out@ + Seq::<u8>::empty() =~= out@);
        }
        Some(out)
    }
}

/// Law: a byte outside the allowed set — a space, a shell metacharacter, or a
/// byte with the high bit set that is no valid UTF-8 — forces the quoted form.
/// Together with the round-trip law this says such bytes are carried through
/// quoting untouched.
pub proof fn lemma_unsafe_byte_forces_quoting(s: Seq<u8>, i: int)
    requires
        0 <= i < s.len(),
        !allowed_spec(s[i]),
    ensures
        escape_spec(s) == quoted(s),
{
}

} // verus!
