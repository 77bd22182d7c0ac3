//! Byte-level text machinery shared by the shorthand and IPC parsers:
//! decimal digit strings and whitespace tokenization, with exact
//! specifications and the lemmas that the round-trip laws rest on.
use vstd::prelude::*;

verus! {

/// Largest amount a decimal token may denote: seven digits.
pub const MAX_AMOUNT: u32 = 9999999;

pub open spec fn is_digit(b: u8) -> bool {
    48 <= b <= 57
}

pub open spec fn all_digits(s: Seq<u8>) -> bool {
    forall|i: int| 0 <= i < s.len() ==> is_digit(#[trigger] s[i])
}

/// Numeric value of a digit string, most significant digit first.
pub open spec fn digits_val(s: Seq<u8>) -> nat
    decreases s.len(),
{
    if s.len() == 0 {
        0
    } else {
        (digits_val(s.drop_last()) * 10 + (s.last() - 48)) as nat
    }
}

/// Canonical decimal rendering of a natural number (no leading zeros).
pub open spec fn dec_rep(n: nat) -> Seq<u8>
    decreases n,
{
    if n < 10 {
        seq![(48 + n) as u8]
    } else {
        dec_rep(n / 10).push((48 + n % 10) as u8)
    }
}

pub proof fn lemma_dec_rep_digits(n: nat)
    ensures
        dec_rep(n).len() >= 1,
        all_digits(dec_rep(n)),
        digits_val(dec_rep(n)) == n,
    decreases n,
{
    if n < 10 {
        let w = dec_rep(n);
        assert(w == seq![(48 + n) as u8]);
        assert(w[0] == (48 + n) as u8);
        assert(w.drop_last() =~= Seq::<u8>::empty());
        assert(digits_val(Seq::<u8>::empty()) == 0);
        assert(w.last() == (48 + n) as u8);
        assert(digits_val(w) == n);
    } else {
        lemma_dec_rep_digits(n / 10);
        vstd::arithmetic::div_mod::lemma_fundamental_div_mod(n as int, 10);
        let d = dec_rep(n / 10);
        let w = dec_rep(n);
        assert(w == d.push((48 + n % 10) as u8));
        assert(w.drop_last() =~= d);
        assert(w.last() == (48 + n % 10) as u8);
        assert(digits_val(w) == digits_val(d) * 10 + (n % 10));
        assert(forall|i: int| 0 <= i < w.len() ==> is_digit(#[trigger] w[i])) by {
            assert(forall|i: int| 0 <= i < d.len() ==> is_digit(#[trigger] d[i]));
            assert(forall|i: int| 0 <= i < d.len() ==> w[i] == d[i]);
            assert(is_digit(w[w.len() - 1]));
        }
    }
}

pub open spec fn pow10(k: nat) -> nat
    decreases k,
{
    if k == 0 {
        1
    } else {
        10 * pow10((k - 1) as nat)
    }
}

pub proof fn lemma_dec_rep_len(n: nat, k: nat)
    requires
        n < pow10(k),
        k >= 1,
    ensures
        dec_rep(n).len() <= k,
    decreases k,
{
    if n < 10 {
    } else {
        let b2 = pow10((k - 1) as nat);
        assert(pow10(k) == 10 * b2);
        assert(n / 10 < b2) by (nonlinear_arith)
            requires n < 10 * b2, b2 >= 1, n >= 10;
        assert(k >= 2) by {
            if k == 1 {
                assert(pow10(1nat) == 10);
            }
        }
        lemma_dec_rep_len(n / 10, (k - 1) as nat);
    }
}

/// Whitespace for the purposes of tokenization: space, tab, LF, CR.
pub open spec fn is_ws(b: u8) -> bool {
    b == 32 || b == 9 || b == 10 || b == 13
}

pub open spec fn no_ws(s: Seq<u8>) -> bool {
    forall|i: int| 0 <= i < s.len() ==> !is_ws(#[trigger] s[i])
}

/// Tokenization with an explicit current-token accumulator.
pub open spec fn tok_rec(s: Seq<u8>, cur: Seq<u8>) -> Seq<Seq<u8>>
    decreases s.len(),
{
    if s.len() == 0 {
        if cur.len() > 0 {
            seq![cur]
        } else {
            seq![]
        }
    } else if is_ws(s[0]) {
        if cur.len() > 0 {
            seq![cur] + tok_rec(s.drop_first(), seq![])
        } else {
            tok_rec(s.drop_first(), seq![])
        }
    } else {
        tok_rec(s.drop_first(), cur.push(s[0]))
    }
}

/// Maximal runs of non-whitespace bytes, in order.
pub open spec fn spec_tokenize(s: Seq<u8>) -> Seq<Seq<u8>> {
    tok_rec(s, seq![])
}

/// Consuming a whitespace-free prefix extends the accumulator.
pub proof fn lemma_tok_word(a: Seq<u8>, rest: Seq<u8>, cur: Seq<u8>)
    requires
        no_ws(a),
    ensures
        tok_rec(a + rest, cur) == tok_rec(rest, cur + a),
    decreases a.len(),
{
    if a.len() == 0 {
        assert(a + rest =~= rest);
        assert(cur + a =~= cur);
    } else {
        let s = a + rest;
        assert(!is_ws(s[0]));
        assert(s.drop_first() =~= a.drop_first() + rest);
        lemma_tok_word(a.drop_first(), rest, cur.push(a[0]));
        assert(cur.push(s[0]) + a.drop_first() =~= cur + a);
    }
}

/// A whitespace byte flushes a non-empty accumulator as one token.
pub proof fn lemma_tok_ws(b: u8, rest: Seq<u8>, cur: Seq<u8>)
    requires
        is_ws(b),
        cur.len() > 0,
    ensures
        tok_rec(seq![b] + rest, cur) == seq![cur] + tok_rec(rest, seq![]),
{
    let s = seq![b] + rest;
    assert(s[0] == b);
    assert(s.drop_first() =~= rest);
}

/// Executable check that one byte is an ASCII decimal digit.
pub fn digit(b: u8) -> (r: bool)
    ensures
        r == is_digit(b),
{
    48 <= b && b <= 57
}

/// Executable check that one byte is whitespace.
pub fn ws(b: u8) -> (r: bool)
    ensures
        r == is_ws(b),
{
    b == 32 || b == 9 || b == 10 || b == 13
}

/// Splits a byte string into its maximal whitespace-free runs.
pub fn tokenize(s: &Vec<u8>) -> (r: Vec<Vec<u8>>)
    ensures
        r@.map_values(|t: Vec<u8>| t@) == spec_tokenize(s@),
{
    let ghost whole = s@;
    let mut out: Vec<Vec<u8>> = Vec::new();
    let mut cur: Vec<u8> = Vec::new();
    let mut i: usize = 0;
    proof {
        assert(whole.skip(0) =~= whole);
        assert(out@.map_values(|t: Vec<u8>| t@) + tok_rec(whole, seq![]) =~= tok_rec(
            whole,
            seq![],
        ));
    }
    while i < s.len()
        invariant
            i <= s@.len(),
            spec_tokenize(whole) == out@.map_values(|t: Vec<u8>| t@) + tok_rec(
                whole.skip(i as int),
                cur@,
            ),
            whole == s@,
        decreases s@.len() - i,
    {
        let ghost pre_out = out@.map_values(|t: Vec<u8>| t@);
        let ghost pre_cur = cur@;
        let b = s[i];
        proof {
            assert(whole.skip(i as int)[0] == b);
            assert(whole.skip(i as int).drop_first() =~= whole.skip(i + 1));
        }
        if ws(b) {
            if cur.len() > 0 {
                let done = cur;
                cur = Vec::new();
                out.push(done);
                proof {
                    assert(tok_rec(whole.skip(i as int), pre_cur) == seq![pre_cur] + tok_rec(
                        whole.skip(i + 1),
                        seq![],
                    ));
                    assert(out@.map_values(|t: Vec<u8>| t@) =~~= pre_out.push(done@));
                    assert(pre_out + (seq![pre_cur] + tok_rec(whole.skip(i + 1), seq![]))
                        =~~= pre_out.push(pre_cur) + tok_rec(whole.skip(i + 1), seq![]));
                }
            } else {
                proof {
                    assert(tok_rec(whole.skip(i as int), pre_cur) == tok_rec(
                        whole.skip(i + 1),
                        seq![],
                    ));
                    assert(cur@ =~= Seq::<u8>::empty());
                }
            }
        } else {
            cur.push(b);
            proof {
                assert(tok_rec(whole.skip(i as int), pre_cur) == tok_rec(
                    whole.skip(i + 1),
                    pre_cur.push(b),
                ));
            }
        }
        i = i + 1;
    }
    let ghost pre_out = out@.map_values(|t: Vec<u8>| t@);
    proof {
        assert(whole.skip(i as int) =~= Seq::<u8>::empty());
    }
    if cur.len() > 0 {
        let done = cur;
        out.push(done);
        proof {
            assert(tok_rec(Seq::<u8>::empty(), done@) == seq![done@]);
            assert(out@.map_values(|t: Vec<u8>| t@) =~~= pre_out.push(done@));
            assert(pre_out + seq![done@] =~~= pre_out.push(done@));
        }
    } else {
        proof {
            assert(tok_rec(Seq::<u8>::empty(), cur@) =~= Seq::<Seq<u8>>::empty());
            assert(pre_out + Seq::<Seq<u8>>::empty() =~= pre_out);
        }
    }
    out
}

/// Compares a byte token with an ASCII keyword.
pub fn token_is(t: &Vec<u8>, kw: &str) -> (r: bool)
    requires
        kw.is_ascii(),
    ensures
        r == (t@ == ascii_bytes(kw@)),
{
    broadcast use vstd::string::is_ascii_spec_bytes;

    let kb = kw.as_bytes();
    if t.len() != kb.len() {
        proof {
            assert(t@ != ascii_bytes(kw@)) by {
                assert(ascii_bytes(kw@).len() == kw@.len());
            }
        }
        return false;
    }
    let mut i: usize = 0;
    while i < t.len()
        invariant
            i <= t@.len(),
            t@.len() == kb@.len(),
            kb@ == ascii_bytes(kw@),
            forall|j: int| 0 <= j < i ==> t@[j] == kb@[j],
        decreases t@.len() - i,
    {
        if t[i] != kb[i] {
            proof {
                assert(t@ != ascii_bytes(kw@));
            }
            return false;
        }
        i = i + 1;
    }
    proof {
        assert(t@ =~= kb@);
    }
    true
}

/// The bytes of an ASCII character sequence.
pub open spec fn ascii_bytes(s: Seq<char>) -> Seq<u8> {
    Seq::new(s.len(), |i: int| s[i] as u8)
}

/// Splitting on one separator byte, with an accumulator; empty pieces are
/// dropped.
pub open spec fn split_rec(s: Seq<u8>, cur: Seq<u8>, sep: u8) -> Seq<Seq<u8>>
    decreases s.len(),
{
    if s.len() == 0 {
        if cur.len() > 0 {
            seq![cur]
        } else {
            seq![]
        }
    } else if s[0] == sep {
        if cur.len() > 0 {
            seq![cur] + split_rec(s.drop_first(), seq![], sep)
        } else {
            split_rec(s.drop_first(), seq![], sep)
        }
    } else {
        split_rec(s.drop_first(), cur.push(s[0]), sep)
    }
}

/// Maximal separator-free runs of a byte string, in order.
pub open spec fn spec_split(s: Seq<u8>, sep: u8) -> Seq<Seq<u8>> {
    split_rec(s, seq![], sep)
}

/// Splits a byte string on a separator byte; empty pieces are dropped.
pub fn split_bytes(s: &Vec<u8>, sep: u8) -> (r: Vec<Vec<u8>>)
    ensures
        r@.map_values(|t: Vec<u8>| t@) == spec_split(s@, sep),
{
    let ghost whole = s@;
    let mut out: Vec<Vec<u8>> = Vec::new();
    let mut cur: Vec<u8> = Vec::new();
    let mut i: usize = 0;
    proof {
        assert(whole.skip(0) =~= whole);
        assert(out@.map_values(|t: Vec<u8>| t@) + split_rec(whole, seq![], sep) =~= split_rec(
            whole,
            seq![],
            sep,
        ));
    }
    while i < s.len()
        invariant
            i <= s@.len(),
            spec_split(whole, sep) == out@.map_values(|t: Vec<u8>| t@) + split_rec(
                whole.skip(i as int),
                cur@,
                sep,
            ),
            whole == s@,
        decreases s@.len() - i,
    {
        let ghost pre_out = out@.map_values(|t: Vec<u8>| t@);
        let ghost pre_cur = cur@;
        let b = s[i];
        proof {
            assert(whole.skip(i as int)[0] == b);
            assert(whole.skip(i as int).drop_first() =~= whole.skip(i + 1));
        }
        if b == sep {
            if cur.len() > 0 {
                let done = cur;
                cur = Vec::new();
                out.push(done);
                proof {
                    assert(split_rec(whole.skip(i as int), pre_cur, sep) == seq![pre_cur]
                        + split_rec(whole.skip(i + 1), seq![], sep));
                    assert(out@.map_values(|t: Vec<u8>| t@) =~~= pre_out.push(done@));
                    assert(pre_out + (seq![pre_cur] + split_rec(whole.skip(i + 1), seq![], sep))
                        =~~= pre_out.push(pre_cur) + split_rec(whole.skip(i + 1), seq![], sep));
                }
            } else {
                proof {
                    assert(split_rec(whole.skip(i as int), pre_cur, sep) == split_rec(
                        whole.skip(i + 1),
                        seq![],
                        sep,
                    ));
                    assert(cur@ =~= Seq::<u8>::empty());
                }
            }
        } else {
            cur.push(b);
            proof {
                assert(split_rec(whole.skip(i as int), pre_cur, sep) == split_rec(
                    whole.skip(i + 1),
                    pre_cur.push(b),
                    sep,
                ));
            }
        }
        i = i + 1;
    }
    let ghost pre_out = out@.map_values(|t: Vec<u8>| t@);
    proof {
        assert(whole.skip(i as int) =~= Seq::<u8>::empty());
    }
    if cur.len() > 0 {
        let done = cur;
        out.push(done);
        proof {
            assert(split_rec(Seq::<u8>::empty(), done@, sep) == seq![done@]);
            assert(out@.map_values(|t: Vec<u8>| t@) =~~= pre_out.push(done@));
            assert(pre_out + seq![done@] =~~= pre_out.push(done@));
        }
    } else {
        proof {
            assert(split_rec(Seq::<u8>::empty(), cur@, sep) =~= Seq::<Seq<u8>>::empty());
            assert(pre_out + Seq::<Seq<u8>>::empty() =~= pre_out);
        }
    }
    out
}

} // verus!
