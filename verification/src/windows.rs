//! Quoting for the Windows command line.
//!
//! A value is escaped by wrapping it in double quotes, following the
//! command-line-to-argv convention of the Microsoft C runtime: inside the
//! quotes a backslash is special only where its run ends at a double quote or
//! at the end of the argument. So each literal `"` is emitted with one extra
//! escaping backslash, a run of backslashes standing before a `"` (or before
//! the closing quote) is doubled, and every other run passes through as it is.
//! Code units are 16-bit values and are never validated as text: an unpaired
//! surrogate passes through unit-for-unit.
//!
//! A non-empty input with no disallowed unit — no space, double quote,
//! newline, tab, and no surrogate code unit — needs no quoting and is
//! returned unchanged.

use vstd::prelude::*;

verus! {

/// A double quote, `"`.
pub const DQ: u16 = 34;
/// A backslash, `\`.
pub const BSL: u16 = 92;
/// A space.
pub const SP: u16 = 32;
/// A horizontal tab.
pub const TAB: u16 = 9;
/// A line feed.
pub const NL: u16 = 10;

/// A code unit that forces quoting: space, double quote, newline, tab, or a
/// surrogate code unit (one that does not decode to a scalar value on its
/// own).
pub open spec fn disallowed_spec(u: u16) -> bool {
    u == SP || u == DQ || u == NL || u == TAB || (0xD800 <= u && u <= 0xDFFF)
}

/// Decides [`disallowed_spec`] for one code unit.
pub fn disallowed(b: u16) -> (r: bool)
    ensures
        r == disallowed_spec(b),
{
    b == SP || b == DQ || b == NL || b == TAB || (0xD800 <= b && b <= 0xDFFF)
}

/// The length of the run of backslashes at the front of `s`.
pub open spec fn slash_run(s: Seq<u16>) -> nat
    decreases s.len(),
{
    if s.len() > 0 && s[0] == BSL {
        1 + slash_run(s.skip(1))
    } else {
        0
    }
}

/// Does the backslash run at the front of `s` end at a double quote or at the
/// end of the sequence? Exactly the backslashes of such runs must be doubled.
pub open spec fn run_ends_hot(s: Seq<u16>) -> bool
    decreases s.len(),
{
    if s.len() == 0 {
        true
    } else if s[0] == DQ {
        true
    } else if s[0] == BSL {
        run_ends_hot(s.skip(1))
    } else {
        false
    }
}

/// The body of the quoted form: a `"` becomes `\"`, a backslash whose run ends
/// at a `"` or at the end of the input is doubled, and every other unit stands
/// as itself.
pub open spec fn quoted_body(s: Seq<u16>) -> Seq<u16>
    decreases s.len(),
{
    if s.len() == 0 {
        Seq::<u16>::empty()
    } else if s[0] == DQ {
        seq![BSL, DQ] + quoted_body(s.skip(1))
    } else if s[0] == BSL {
        (if run_ends_hot(s) {
            seq![BSL, BSL]
        } else {
            seq![BSL]
        }) + quoted_body(s.skip(1))
    } else {
        seq![s[0]] + quoted_body(s.skip(1))
    }
}

/// The fully quoted form: the expanded body wrapped in double quotes.
pub open spec fn quoted(s: Seq<u16>) -> Seq<u16> {
    seq![DQ] + quoted_body(s) + seq![DQ]
}

/// What [`escape`] returns: the input itself when it is non-empty and free of
/// disallowed units, otherwise the quoted form.
pub open spec fn escape_spec(s: Seq<u16>) -> Seq<u16> {
    if s.len() > 0 && (forall|i: int| 0 <= i < s.len() ==> !disallowed_spec(s[i])) {
        s
    } else {
        quoted(s)
    }
}

/// A run of `n` backslashes.
pub open spec fn slashes(n: nat) -> Seq<u16> {
    Seq::new(n, |i: int| BSL)
}

proof fn lemma_slash_run_le(s: Seq<u16>)
    ensures
        slash_run(s) <= s.len(),
        forall|j: int| 0 <= j < slash_run(s) ==> s[j] == BSL,
        slash_run(s) < s.len() ==> s[slash_run(s) as int] != BSL,
    decreases s.len(),
{
    if s.len() > 0 && s[0] == BSL {
        lemma_slash_run_le(s.skip(1));
        assert forall|j: int| 0 <= j < slash_run(s) implies s[j] == BSL by {
            if j > 0 {
                assert(s.skip(1)[j - 1] == BSL);
            }
        }
    }
}

proof fn lemma_slash_run_eq(s: Seq<u16>, k: nat)
    requires
        k <= s.len(),
        forall|j: int| 0 <= j < k ==> s[j] == BSL,
        k == s.len() || s[k as int] != BSL,
    ensures
        slash_run(s) == k,
    decreases k,
{
    if k == 0 {
    } else {
        assert(s[0] == BSL);
        assert forall|j: int| 0 <= j < k - 1 implies s.skip(1)[j] == BSL by {
            assert(s[j + 1] == BSL);
        }
        lemma_slash_run_eq(s.skip(1), (k - 1) as nat);
    }
}

proof fn lemma_hot_iff(s: Seq<u16>)
    ensures
        run_ends_hot(s) <==> (slash_run(s) == s.len() || s[slash_run(s) as int] == DQ),
    decreases s.len(),
{
    lemma_slash_run_le(s);
    if s.len() > 0 && s[0] == BSL {
        lemma_hot_iff(s.skip(1));
        lemma_slash_run_le(s.skip(1));
        let k1 = slash_run(s.skip(1));
        if k1 < s.skip(1).len() {
            assert(s.skip(1)[k1 as int] == s[k1 as int + 1]);
        }
    }
}

proof fn lemma_qb_all_slashes(s: Seq<u16>)
    requires
        slash_run(s) == s.len(),
    ensures
        quoted_body(s) == slashes(2 * s.len()),
    decreases s.len(),
{
    lemma_slash_run_le(s);
    if s.len() == 0 {
        assert(slashes(0) =~= Seq::<u16>::empty());
    } else {
        assert(s[0] == BSL);
        assert(run_ends_hot(s)) by {
            lemma_hot_iff(s);
        }
        lemma_qb_all_slashes(s.skip(1));
        assert(seq![BSL, BSL] + slashes((2 * (s.len() - 1)) as nat) =~= slashes(2 * s.len()));
    }
}

proof fn lemma_qb_run_quote(s: Seq<u16>)
    requires
        slash_run(s) < s.len(),
        s[slash_run(s) as int] == DQ,
    ensures
        quoted_body(s) == slashes(2 * slash_run(s) + 1) + seq![DQ] + quoted_body(
            s.skip(slash_run(s) as int + 1),
        ),
    decreases s.len(),
{
    lemma_slash_run_le(s);
    let k = slash_run(s);
    if k == 0 {
        assert(s[0] == DQ);
        assert(seq![BSL, DQ] =~= slashes(1) + seq![DQ]);
        assert(quoted_body(s) =~= slashes(1) + seq![DQ] + quoted_body(s.skip(1)));
    } else {
        assert(s[0] == BSL);
        assert(run_ends_hot(s)) by {
            lemma_hot_iff(s);
        }
        let s1 = s.skip(1);
        assert(slash_run(s1) == k - 1);
        assert(s1[k as int - 1] == s[k as int]);
        lemma_qb_run_quote(s1);
        assert(s1.skip(k as int) =~= s.skip(k as int + 1));
        assert(seq![BSL, BSL] + (slashes((2 * (k - 1) + 1) as nat) + seq![DQ] + quoted_body(
            s.skip(k as int + 1),
        )) =~= slashes(2 * k + 1) + seq![DQ] + quoted_body(s.skip(k as int + 1)));
    }
}

proof fn lemma_qb_run_other(s: Seq<u16>)
    requires
        slash_run(s) < s.len(),
        s[slash_run(s) as int] != DQ,
    ensures
        quoted_body(s) == slashes(slash_run(s)) + seq![s[slash_run(s) as int]] + quoted_body(
            s.skip(slash_run(s) as int + 1),
        ),
    decreases s.len(),
{
    lemma_slash_run_le(s);
    let k = slash_run(s);
    let c = s[k as int];
    assert(c != BSL);
    if k == 0 {
        assert(seq![c] =~= slashes(0) + seq![c]);
        assert(quoted_body(s) =~= slashes(0) + seq![c] + quoted_body(s.skip(1)));
    } else {
        assert(s[0] == BSL);
        assert(!run_ends_hot(s)) by {
            lemma_hot_iff(s);
        }
        let s1 = s.skip(1);
        assert(slash_run(s1) == k - 1);
        assert(s1[k as int - 1] == s[k as int]);
        lemma_qb_run_other(s1);
        assert(s1.skip(k as int) =~= s.skip(k as int + 1));
        assert(seq![BSL] + (slashes((k - 1) as nat) + seq![c] + quoted_body(s.skip(k as int + 1)))
            =~= slashes(k) + seq![c] + quoted_body(s.skip(k as int + 1)));
    }
}

/// Escapes a sequence of 16-bit code units so that the Windows command-line
/// parser reads it as one literal argument. Returns the input unchanged when
/// it is non-empty and no unit is disallowed, otherwise the double-quoted form
/// with backslash runs doubled where they end at a quote.
pub fn escape(s: &Vec<u16>) -> (r: Vec<u16>)
    ensures
        r@ == escape_spec(s@),
{
    let mut safe: bool = s.len() > 0;
    let mut i: usize = 0;
    while i < s.len()
        invariant
            i <= s@.len(),
            safe == (s@.len() > 0 && (forall|j: int| 0 <= j < i ==> !disallowed_spec(s@[j]))),
        decreases s@.len() - i,
    {
        if disallowed(s[i]) {
            safe = false;
        }
        i += 1;
    }
    if safe {
        let mut out: Vec<u16> = Vec::with_capacity(s.len());
        let mut i: usize = 0;
        while i < s.len()
            invariant
                i <= s@.len(),
                out@ == s@.subrange(0, i as int),
            decreases s@.len() - i,
        {
            out.push(s[i]);
            proof {
                assert(s@.subrange(0, i as int).push(s@[i as int]) =~= s@.subrange(
                    0,
                    i as int + 1,
                ));
            }
            i += 1;
        }
        proof {
            assert(s@.subrange(0, s@.len() as int) =~= s@);
        }
        return out;
    }
    let mut out: Vec<u16> = Vec::with_capacity(s.len());
    out.push(DQ);
    proof {
        assert(s@.skip(0) =~= s@);
        assert(out@ + quoted_body(s@) =~= seq![DQ] + quoted_body(s@));
    }
    let mut i: usize = 0;
    while i < s.len()
        invariant
            i <= s@.len(),
            out@ + quoted_body(s@.skip(i as int)) == seq![DQ] + quoted_body(s@),
        decreases s@.len() - i,
    {
        let ghost pre = s@.skip(i as int);
        let mut k: usize = 0;
        while i + k < s.len() && s[i + k] == BSL
            invariant
                i + k <= s@.len(),
                s@.len() <= usize::MAX,
                forall|j: int| 0 <= j < k ==> #[trigger] s@[i + j] == BSL,
            decreases s@.len() - i - k,
        {
            k += 1;
        }
        proof {
            assert forall|j: int| 0 <= j < k implies pre[j] == BSL by {
                assert(s@[i + j] == BSL);
            }
            if i + k < s@.len() {
                assert(pre[k as int] == s@[i as int + k]);
            }
            lemma_slash_run_eq(pre, k as nat);
        }
        if i + k == s.len() {
            // trailing run: double it before the closing quote
            let ghost prev = out@;
            let mut j: usize = 0;
            while j < k
                invariant
                    j <= k,
                    out@ == prev + slashes(2 * j as nat),
                decreases k - j,
            {
                out.push(BSL);
                out.push(BSL);
                proof {
                    assert(prev + slashes(2 * j as nat) + seq![BSL, BSL] =~= prev + slashes(
                        2 * (j + 1) as nat,
                    ));
                }
                j += 1;
            }
            proof {
                lemma_qb_all_slashes(pre);
                assert(s@.skip(i as int + k) =~= Seq::<u16>::empty());
                assert(out@ + quoted_body(s@.skip(i as int + k)) =~= prev + quoted_body(pre));
            }
            i += k;
        } else if s[i + k] == DQ {
            // the run ends at a quote: double it, then emit the escaped quote
            let ghost prev = out@;
            let mut j: usize = 0;
            while j < k
                invariant
                    j <= k,
                    out@ == prev + slashes(2 * j as nat),
                decreases k - j,
            {
                out.push(BSL);
                out.push(BSL);
                proof {
                    assert(prev + slashes(2 * j as nat) + seq![BSL, BSL] =~= prev + slashes(
                        2 * (j + 1) as nat,
                    ));
                }
                j += 1;
            }
            out.push(BSL);
            out.push(DQ);
            proof {
                lemma_qb_run_quote(pre);
                assert(pre.skip(k as int + 1) =~= s@.skip(i as int + k + 1));
                assert(out@ =~= prev + (slashes(2 * k as nat + 1) + seq![DQ]));
                assert(out@ + quoted_body(s@.skip(i as int + k + 1)) =~= prev + quoted_body(pre));
            }
            i += k + 1;
        } else {
            // the run ends at an ordinary unit: both pass through unchanged
            let ghost prev = out@;
            let mut j: usize = 0;
            while j < k
                invariant
                    j <= k,
                    out@ == prev + slashes(j as nat),
                decreases k - j,
            {
                out.push(BSL);
                proof {
                    assert(prev + slashes(j as nat) + seq![BSL] =~= prev + slashes(
                        (j + 1) as nat,
                    ));
                }
                j += 1;
            }
            let c = s[i + k];
            out.push(c);
            proof {
                lemma_qb_run_other(pre);
                assert(pre[k as int] == s@[i as int + k]);
                assert(pre.skip(k as int + 1) =~= s@.skip(i as int + k + 1));
                assert(out@ =~= prev + (slashes(k as nat) + seq![c]));
                assert(out@ + quoted_body(s@.skip(i as int + k + 1)) =~= prev + quoted_body(pre));
            }
            i += k + 1;
        }
    }
    out.push(DQ);
    proof {
        assert(s@.skip(s@.len() as int) =~= Seq::<u16>::empty());
        assert(out@ =~= quoted(s@));
    }
    out
}

/// Prepends `p` to the argument inside `o`, when there is one.
pub open spec fn opt_prepend(p: Seq<u16>, o: Option<Seq<u16>>) -> Option<Seq<u16>> {
    match o {
        Option::Some(r) => Option::Some(p + r),
        Option::None => Option::None,
    }
}

/// A model of the Windows command-line parser reading one argument, in the
/// convention of the Microsoft C runtime. `in_q` says whether the parser is
/// inside a double-quoted span. A run of `k` backslashes before a `"` yields
/// `k / 2` literal backslashes, and the `"` is literal when `k` is odd and
/// toggles the quoted span when `k` is even; a backslash not in such a run is
/// literal, as is a `"`-free unit. Unquoted whitespace is refused (`None`): it
/// would split the argument.
pub open spec fn untok(s: Seq<u16>, in_q: bool) -> Option<Seq<u16>>
    decreases s.len(),
{
    if s.len() == 0 {
        Option::Some(Seq::<u16>::empty())
    } else if s[0] == BSL {
        let k = slash_run(s);
        if k < s.len() && s[k as int] == DQ {
            if k % 2 == 1 {
                opt_prepend(
                    slashes(((k - 1) / 2) as nat) + seq![DQ],
                    untok(s.skip(k as int + 1), in_q),
                )
            } else {
                opt_prepend(slashes((k / 2) as nat), untok(s.skip(k as int + 1), !in_q))
            }
        } else {
            opt_prepend(seq![BSL], untok(s.skip(1), in_q))
        }
    } else if s[0] == DQ {
        untok(s.skip(1), !in_q)
    } else if !in_q && (s[0] == SP || s[0] == TAB || s[0] == NL) {
        Option::None
    } else {
        opt_prepend(seq![s[0]], untok(s.skip(1), in_q))
    }
}

proof fn lemma_opt_prepend_assoc(a: Seq<u16>, b: Seq<u16>, o: Option<Seq<u16>>)
    ensures
        opt_prepend(a, opt_prepend(b, o)) == opt_prepend(a + b, o),
{
    match o {
        Option::Some(r) => {
            assert(a + (b + r) =~= (a + b) + r);
        },
        Option::None => {},
    }
}

#[verifier::rlimit(100)]
proof fn lemma_untok_body(s: Seq<u16>, t: Seq<u16>)
    ensures
        untok(quoted_body(s) + seq![DQ] + t, true) == opt_prepend(s, untok(t, false)),
    decreases s.len(),
{
    let arg = quoted_body(s) + seq![DQ] + t;
    lemma_slash_run_le(s);
    if s.len() == 0 {
        assert(arg =~= seq![DQ] + t);
        assert(arg[0] == DQ);
        assert(arg.skip(1) =~= t);
        assert(untok(arg, true) == untok(t, false));
        match untok(t, false) {
            Option::Some(r) => {
                assert(s + r =~= r);
            },
            Option::None => {},
        }
    } else {
        let m = slash_run(s);
        if m == s.len() {
            lemma_qb_all_slashes(s);
            assert(arg =~= slashes(2 * m) + seq![DQ] + t);
            assert(arg[0] == BSL);
            assert forall|j: int| 0 <= j < 2 * m implies arg[j] == BSL by {
                assert(slashes(2 * m)[j] == BSL);
            }
            assert(arg[2 * m as int] == DQ);
            lemma_slash_run_eq(arg, 2 * m);
            assert((2 * m) % 2 == 0 && (2 * m) / 2 == m);
            assert(untok(arg, true) == opt_prepend(
                slashes(m),
                untok(arg.skip(2 * m as int + 1), false),
            ));
            assert(arg.skip(2 * m as int + 1) =~= t);
            assert(s =~= slashes(m));
        } else if s[m as int] == DQ {
            let rest = s.skip(m as int + 1);
            lemma_qb_run_quote(s);
            assert(arg =~= slashes(2 * m + 1) + seq![DQ] + (quoted_body(rest) + seq![DQ] + t));
            assert(arg[0] == BSL);
            assert forall|j: int| 0 <= j < 2 * m + 1 implies arg[j] == BSL by {
                assert(slashes(2 * m + 1)[j] == BSL);
            }
            assert(arg[2 * m as int + 1] == DQ);
            lemma_slash_run_eq(arg, 2 * m + 1);
            assert((2 * m + 1) % 2 == 1 && (2 * m + 1 - 1) / 2 == m);
            assert(untok(arg, true) == opt_prepend(
                slashes(m) + seq![DQ],
                untok(arg.skip(2 * m as int + 2), true),
            ));
            assert(arg.skip(2 * m as int + 2) =~= quoted_body(rest) + seq![DQ] + t);
            lemma_untok_body(rest, t);
            lemma_opt_prepend_assoc(slashes(m) + seq![DQ], rest, untok(t, false));
            assert(slashes(m) + seq![DQ] + rest =~= s);
        } else {
            let c = s[m as int];
            let rest = s.skip(m as int + 1);
            lemma_qb_run_other(s);
            if m == 0 {
                assert(arg =~= seq![c] + (quoted_body(rest) + seq![DQ] + t));
                assert(arg[0] == c && c != BSL && c != DQ);
                assert(arg.skip(1) =~= quoted_body(rest) + seq![DQ] + t);
                assert(untok(arg, true) == opt_prepend(
                    seq![c],
                    untok(quoted_body(rest) + seq![DQ] + t, true),
                ));
                lemma_untok_body(rest, t);
                lemma_opt_prepend_assoc(seq![c], rest, untok(t, false));
                assert(seq![c] + rest =~= s);
            } else {
                let s1 = s.skip(1);
                assert(arg =~= slashes(m) + (seq![c] + (quoted_body(rest) + seq![DQ] + t)));
                assert(arg[0] == BSL);
                assert forall|j: int| 0 <= j < m implies arg[j] == BSL by {
                    assert(slashes(m)[j] == BSL);
                }
                assert(arg[m as int] == c && c != BSL && c != DQ);
                lemma_slash_run_eq(arg, m);
                assert(untok(arg, true) == opt_prepend(seq![BSL], untok(arg.skip(1), true)));
                assert(slash_run(s1) == m - 1);
                assert(s1[m as int - 1] == c);
                lemma_qb_run_other(s1);
                assert(s1.skip(m as int) =~= rest);
                assert(arg.skip(1) =~= quoted_body(s1) + seq![DQ] + t);
                lemma_untok_body(s1, t);
                lemma_opt_prepend_assoc(seq![BSL], s1, untok(t, false));
                assert(seq![BSL] + s1 =~= s);
            }
        }
    }
}

proof fn lemma_untok_safe(s: Seq<u16>)
    requires
        forall|i: int| 0 <= i < s.len() ==> !disallowed_spec(s[i]),
    ensures
        untok(s, false) == Option::Some(s),
    decreases s.len(),
{
    if s.len() == 0 {
        assert(s =~= Seq::<u16>::empty());
    } else {
        assert(!disallowed_spec(s[0]));
        lemma_untok_safe(s.skip(1));
        if s[0] == BSL {
            let k = slash_run(s);
            lemma_slash_run_le(s);
            if k < s.len() {
                assert(!disallowed_spec(s[k as int]));
                assert(s[k as int] != DQ);
            }
            assert(seq![BSL] + s.skip(1) =~= s);
        } else {
            assert(s[0] != DQ && s[0] != SP && s[0] != TAB && s[0] != NL);
            assert(seq![s[0]] + s.skip(1) =~= s);
        }
    }
}

/// Law: round trip. Writing the escaped form into a command line and reading
/// it back with the Windows argument rules — as [`untok`] models them —
/// yields exactly the original code units, as one argument, for every input.
pub proof fn lemma_escape_round_trip(s: Seq<u16>)
    ensures
        untok(escape_spec(s), false) == Option::Some(s),
{
    if s.len() > 0 && (forall|i: int| 0 <= i < s.len() ==> !disallowed_spec(s[i])) {
        lemma_untok_safe(s);
    } else {
        let arg = quoted(s);
        assert(arg[0] == DQ && arg[0] != BSL);
        assert(arg.skip(1) =~= quoted_body(s) + seq![DQ] + Seq::<u16>::empty());
        assert(untok(arg, false) == untok(quoted_body(s) + seq![DQ] + Seq::<u16>::empty(), true));
        lemma_untok_body(s, Seq::<u16>::empty());
        assert(untok(Seq::<u16>::empty(), false) == Option::Some(Seq::<u16>::empty()));
        assert(s + Seq::<u16>::empty() =~= s);
    }
}

proof fn lemma_quoted_body_len(s: Seq<u16>)
    ensures
        quoted_body(s).len() >= s.len(),
    decreases s.len(),
{
    if s.len() > 0 {
        lemma_quoted_body_len(s.skip(1));
    }
}

/// Law: idempotence of the safety check. Escaping returns its input unchanged
/// only when the input is non-empty and no code unit is disallowed.
pub proof fn lemma_escape_identity(s: Seq<u16>)
    requires
        escape_spec(s) == s,
    ensures
        s.len() > 0,
        forall|i: int| 0 <= i < s.len() ==> !disallowed_spec(s[i]),
{
    if !(s.len() > 0 && (forall|i: int| 0 <= i < s.len() ==> !disallowed_spec(s[i]))) {
        lemma_quoted_body_len(s);
        assert(quoted(s).len() >= s.len() + 2);
        assert(false);
    }
}

/// Reads one argument the way the parser model does: the executable form of
/// [`untok`]. Returns the argument's code units, or `None` where the model
/// refuses the input. Feeding it an escaped value returns the original units,
/// which lets the round-trip law be exercised on concrete values.
pub fn unquote(s: &Vec<u16>) -> (r: Option<Vec<u16>>)
    ensures
        match r {
            Option::Some(v) => untok(s@, false) == Option::Some(v@),
            Option::None => untok(s@, false) == Option::<Seq<u16>>::None,
        },
{
    let mut out: Vec<u16> = Vec::with_capacity(s.len());
    let mut in_q: bool = false;
    let mut i: usize = 0;
    let n: usize = s.len();
    proof {
        assert(s@.skip(0) =~= s@);
        assert(Seq::<u16>::empty() + s@ =~= s@);
    }
    while i < n
        invariant
            i <= s@.len(),
            n == s@.len(),
            untok(s@, false) == opt_prepend(out@, untok(s@.skip(i as int), in_q)),
        decreases s@.len() - i,
    {
        let ghost pre = s@.skip(i as int);
        let ghost old_in_q = in_q;
        let ghost prev = out@;
        let b = s[i];
        assert(pre[0] == b);
        if b == BSL {
            let mut k: usize = 0;
            while i + k < n && s[i + k] == BSL
                invariant
                    i + k <= s@.len(),
                    n == s@.len(),
                    forall|j: int| 0 <= j < k ==> #[trigger] s@[i + j] == BSL,
                decreases s@.len() - i - k,
            {
                k += 1;
            }
            proof {
                assert forall|j: int| 0 <= j < k implies pre[j] == BSL by {
                    assert(s@[i + j] == BSL);
                }
                if i + k < s@.len() {
                    assert(pre[k as int] == s@[i as int + k]);
                }
                lemma_slash_run_eq(pre, k as nat);
            }
            if i + k < n && s[i + k] == DQ {
                let half: usize = k / 2;
                let mut j: usize = 0;
                while j < half
                    invariant
                        j <= half,
                        out@ == prev + slashes(j as nat),
                    decreases half - j,
                {
                    out.push(BSL);
                    proof {
                        assert(prev + slashes(j as nat) + seq![BSL] =~= prev + slashes(
                            (j + 1) as nat,
                        ));
                    }
                    j += 1;
                }
                if k % 2 == 1 {
                    out.push(DQ);
                    proof {
                        assert(pre.skip(k as int + 1) =~= s@.skip(i as int + k + 1));
                        assert(untok(pre, in_q) == opt_prepend(
                            slashes(((k - 1) / 2) as nat) + seq![DQ],
                            untok(s@.skip(i as int + k + 1), in_q),
                        ));
                        assert(out@ =~= prev + (slashes(((k - 1) / 2) as nat) + seq![DQ]));
                        lemma_opt_prepend_assoc(
                            prev,
                            slashes(((k - 1) / 2) as nat) + seq![DQ],
                            untok(s@.skip(i as int + k + 1), in_q),
                        );
                    }
                } else {
                    in_q = !in_q;
                    proof {
                        assert(pre.skip(k as int + 1) =~= s@.skip(i as int + k + 1));
                        assert(untok(pre, old_in_q) == opt_prepend(
                            slashes((k / 2) as nat),
                            untok(s@.skip(i as int + k + 1), in_q),
                        ));
                        assert(out@ =~= prev + slashes((k / 2) as nat));
                        lemma_opt_prepend_assoc(
                            prev,
                            slashes((k / 2) as nat),
                            untok(s@.skip(i as int + k + 1), in_q),
                        );
                    }
                }
                i += k + 1;
            } else {
                out.push(BSL);
                proof {
                    assert(pre.skip(1) =~= s@.skip(i as int + 1));
                    assert(untok(pre, in_q) == opt_prepend(
                        seq![BSL],
                        untok(s@.skip(i as int + 1), in_q),
                    ));
                    assert(out@ =~= prev + seq![BSL]);
                    lemma_opt_prepend_assoc(prev, seq![BSL], untok(s@.skip(i as int + 1), in_q));
                }
                i += 1;
            }
        } else if b == DQ {
            in_q = !in_q;
            proof {
                assert(pre.skip(1) =~= s@.skip(i as int + 1));
                assert(untok(pre, old_in_q) == untok(s@.skip(i as int + 1), in_q));
            }
            i += 1;
        } else if !in_q && (b == SP || b == TAB || b == NL) {
            return None;
        } else {
            out.push(b);
            proof {
                assert(pre.skip(1) =~= s@.skip(i as int + 1));
                assert(untok(pre, in_q) == opt_prepend(
                    seq![b],
                    untok(s@.skip(i as int + 1), in_q),
                ));
                assert(out@ =~= prev + seq![b]);
                lemma_opt_prepend_assoc(prev, seq![b], untok(s@.skip(i as int + 1), in_q));
            }
            i += 1;
        }
    }
    proof {
        assert(s@.skip(s@.len() as int) =~= Seq::<u16>::empty());
        assert(out@ + Seq::<u16>::empty() =~= out@);
    }
    Some(out)
}

/// Law: a disallowed code unit — whitespace, a double quote, or an unpaired
/// surrogate — forces the quoted form. Together with the round-trip law this
/// says such units are carried through quoting unit-for-unit.
pub proof fn lemma_disallowed_unit_forces_quoting(s: Seq<u16>, i: int)
    requires
        0 <= i < s.len(),
        disallowed_spec(s[i]),
    ensures
        escape_spec(s) == quoted(s),
{
}

} // verus!
