//! The run-length codec: maximal runs of one repeated character are written
//! as the character followed by the run length in decimal.

use vstd::prelude::*;

use crate::text::{chars_to_string, str_to_chars};

verus! {

/// Numeric value of a decimal digit character, or -1 when `c` is no digit.
pub open spec fn digit_val(c: char) -> int {
    if c == '0' {
        0
    } else if c == '1' {
        1
    } else if c == '2' {
        2
    } else if c == '3' {
        3
    } else if c == '4' {
        4
    } else if c == '5' {
        5
    } else if c == '6' {
        6
    } else if c == '7' {
        7
    } else if c == '8' {
        8
    } else if c == '9' {
        9
    } else {
        -1
    }
}

/// True when `c` is a decimal digit.
pub open spec fn is_count_digit(c: char) -> bool {
    digit_val(c) >= 0
}

/// The decimal digit character for a value from 0 to 9.
pub open spec fn digit_char(n: int) -> char
    recommends
        0 <= n <= 9,
{
    if n == 0 {
        '0'
    } else if n == 1 {
        '1'
    } else if n == 2 {
        '2'
    } else if n == 3 {
        '3'
    } else if n == 4 {
        '4'
    } else if n == 5 {
        '5'
    } else if n == 6 {
        '6'
    } else if n == 7 {
        '7'
    } else if n == 8 {
        '8'
    } else {
        '9'
    }
}

/// Decimal representation of `n`, most significant digit first, with no
/// padding.
pub open spec fn dec_rep(n: nat) -> Seq<char>
    decreases n,
{
    if n < 10 {
        seq![digit_char(n as int)]
    } else {
        dec_rep(n / 10).push(digit_char((n % 10) as int))
    }
}

/// Length of the maximal run of equal characters at the start of `s`.
pub open spec fn head_run_len(s: Seq<char>) -> int
    decreases s.len(),
{
    if s.len() <= 1 {
        s.len() as int
    } else if s[1] != s[0] {
        1
    } else {
        1 + head_run_len(s.skip(1))
    }
}

/// A nonempty sequence has a head run of at least one character, and the
/// run never reaches past the end.
proof fn lemma_head_run_len_bounds(s: Seq<char>)
    requires
        s.len() > 0,
    ensures
        1 <= head_run_len(s) <= s.len(),
    decreases s.len(),
{
    if s.len() > 1 && s[1] == s[0] {
        lemma_head_run_len_bounds(s.skip(1));
    }
}

/// Every character in the head run equals the first character.
proof fn lemma_head_run_prefix(s: Seq<char>)
    requires
        s.len() > 0,
    ensures
        forall|k: int| 0 <= k < head_run_len(s) ==> #[trigger] s[k] == s[0],
    decreases s.len(),
{
    lemma_head_run_len_bounds(s);
    if s.len() > 1 && s[1] == s[0] {
        lemma_head_run_prefix(s.skip(1));
        assert forall|k: int| 0 <= k < head_run_len(s) implies #[trigger] s[k] == s[0] by {
            if k >= 1 {
                assert(s.skip(1)[k - 1] == s[k]);
                assert(s.skip(1)[k - 1] == s.skip(1)[0]);
            }
        }
    }
}

/// The head run is exactly `j` characters long when the first `j` characters
/// agree with the first and the character at `j`, if there is one, differs.
proof fn lemma_head_run_exact(s: Seq<char>, j: int)
    requires
        0 < j <= s.len(),
        forall|k: int| 0 <= k < j ==> #[trigger] s[k] == s[0],
        j == s.len() || s[j] != s[0],
    ensures
        head_run_len(s) == j,
    decreases j,
{
    if j == 1 {
        if s.len() > 1 {
            assert(s[1] != s[0]);
        }
    } else {
        assert(s[1] == s[0]);
        assert forall|k: int| 0 <= k < j - 1 implies #[trigger] s.skip(1)[k] == s.skip(1)[0] by {
            assert(s[k + 1] == s[0]);
            assert(s[1] == s[0]);
        }
        if j < s.len() {
            assert(s.skip(1)[j - 1] == s[j]);
        }
        lemma_head_run_exact(s.skip(1), j - 1);
    }
}

/// Run-length encoding: each maximal run becomes the run's character
/// followed by the run length in decimal.
pub open spec fn rle_encode_spec(s: Seq<char>) -> Seq<char>
    decreases s.len(),
    via rle_encode_spec_dec
{
    if s.len() == 0 {
        Seq::empty()
    } else {
        seq![s[0]] + dec_rep(head_run_len(s) as nat) + rle_encode_spec(s.skip(head_run_len(s)))
    }
}

#[via_fn]
proof fn rle_encode_spec_dec(s: Seq<char>) {
    if s.len() > 0 {
        lemma_head_run_len_bounds(s);
    }
}

/// True when every count position (odd index) holds a decimal digit, so the
/// decoder can read the sequence as character-count pairs.
pub open spec fn counts_ok(s: Seq<char>) -> bool {
    forall|i: int| 0 <= i < s.len() && i % 2 == 1 ==> is_count_digit(#[trigger] s[i])
}

/// Run-length decoding: read pairs of a character and one count digit, and
/// expand each pair. A trailing unpaired character is dropped, and nothing
/// past a malformed count position is decoded.
pub open spec fn rle_decode_spec(s: Seq<char>) -> Seq<char>
    decreases s.len(),
{
    if s.len() < 2 {
        Seq::empty()
    } else if !is_count_digit(s[1]) {
        Seq::empty()
    } else {
        Seq::new(digit_val(s[1]) as nat, |k: int| s[0]) + rle_decode_spec(s.skip(2))
    }
}

/// Every maximal run of `s` is at most nine characters long, so each run
/// length fits in the one count digit the decoder reads.
pub open spec fn runs_bounded(s: Seq<char>) -> bool
    decreases s.len(),
    via runs_bounded_dec
{
    s.len() == 0 || (head_run_len(s) <= 9 && runs_bounded(s.skip(head_run_len(s))))
}

#[via_fn]
proof fn runs_bounded_dec(s: Seq<char>) {
    if s.len() > 0 {
        lemma_head_run_len_bounds(s);
    }
}

fn digit_char_exec(n: usize) -> (c: char)
    requires
        n <= 9,
    ensures
        c == digit_char(n as int),
{
    if n == 0 {
        '0'
    } else if n == 1 {
        '1'
    } else if n == 2 {
        '2'
    } else if n == 3 {
        '3'
    } else if n == 4 {
        '4'
    } else if n == 5 {
        '5'
    } else if n == 6 {
        '6'
    } else if n == 7 {
        '7'
    } else if n == 8 {
        '8'
    } else {
        '9'
    }
}

fn is_count_digit_exec(c: char) -> (r: bool)
    ensures
        r == is_count_digit(c),
{
    c == '0' || c == '1' || c == '2' || c == '3' || c == '4' || c == '5' || c == '6' || c == '7'
        || c == '8' || c == '9'
}

fn digit_val_exec(c: char) -> (n: usize)
    requires
        is_count_digit(c),
    ensures
        n as int == digit_val(c),
{
    if c == '0' {
        0
    } else if c == '1' {
        1
    } else if c == '2' {
        2
    } else if c == '3' {
        3
    } else if c == '4' {
        4
    } else if c == '5' {
        5
    } else if c == '6' {
        6
    } else if c == '7' {
        7
    } else if c == '8' {
        8
    } else {
        9
    }
}

/// Appends the decimal representation of `n` to `out`.
fn push_decimal(out: &mut Vec<char>, n: usize)
    ensures
        final(out)@ == old(out)@ + dec_rep(n as nat),
    decreases n,
{
    if n >= 10 {
        push_decimal(out, n / 10);
        let d = digit_char_exec(n % 10);
        out.push(d);
        proof {
            assert(out@ =~= old(out)@ + dec_rep(n as nat));
        }
    } else {
        let d = digit_char_exec(n);
        out.push(d);
        proof {
            assert(out@ =~= old(out)@ + dec_rep(n as nat));
        }
    }
}

/// Appends `n` copies of `c` to `out`.
fn push_repeat(out: &mut Vec<char>, c: char, n: usize)
    ensures
        final(out)@ == old(out)@ + Seq::new(n as nat, |k: int| c),
{
    let mut i: usize = 0;
    while i < n
        invariant
            i <= n,
            out@ == old(out)@ + Seq::new(i as nat, |k: int| c),
        decreases n - i,
    {
        out.push(c);
        proof {
            assert(out@ =~= old(out)@ + Seq::new((i + 1) as nat, |k: int| c));
        }
        i = i + 1;
    }
}

/// Encodes `data` by run-length encoding: each maximal run of one repeated
/// character becomes that character followed by the run length in decimal.
/// A run of ten or more characters therefore takes several count digits,
/// which [`rle_decode`] cannot read back; [`runs_bounded`] names the inputs
/// that round-trip.
pub fn rle_encode(data: &str) -> (r: String)
    ensures
        r@ == rle_encode_spec(data@),
{
    let chars = str_to_chars(data);
    let n = chars.len();
    let mut out: Vec<char> = Vec::new();
    let mut i: usize = 0;
    proof {
        assert(chars@.skip(0) =~= chars@);
        assert(out@ + rle_encode_spec(chars@) =~= rle_encode_spec(chars@));
    }
    while i < n
        invariant
            i <= n,
            n == chars.len(),
            chars@ == data@,
            rle_encode_spec(data@) == out@ + rle_encode_spec(chars@.skip(i as int)),
        decreases n - i,
    {
        let c = chars[i];
        let mut j = i + 1;
        while j < n && chars[j] == c
            invariant
                i < j <= n,
                n == chars.len(),
                c == chars@[i as int],
                forall|k: int| i <= k < j ==> #[trigger] chars@[k] == c,
            decreases n - j,
        {
            j = j + 1;
        }
        let ghost tail = chars@.skip(i as int);
        let ghost run: int = j - i;
        proof {
            assert forall|k: int| 0 <= k < run implies #[trigger] tail[k] == tail[0] by {
                assert(chars@[i + k] == c);
                assert(chars@[i + 0] == c);
            }
            if run < tail.len() {
                assert(tail[run] == chars@[j as int]);
            }
            lemma_head_run_exact(tail, run);
            assert(tail.skip(run) =~= chars@.skip(j as int));
        }
        let ghost out0 = out@;
        out.push(c);
        push_decimal(&mut out, j - i);
        proof {
            assert(out@ =~= out0 + seq![c] + dec_rep(run as nat));
            assert(rle_encode_spec(tail) == seq![c] + dec_rep(run as nat) + rle_encode_spec(
                chars@.skip(j as int),
            ));
            assert(out0 + (seq![c] + dec_rep(run as nat) + rle_encode_spec(chars@.skip(j as int)))
                =~= (out0 + seq![c] + dec_rep(run as nat)) + rle_encode_spec(
                chars@.skip(j as int),
            ));
        }
        i = j;
    }
    proof {
        assert(chars@.skip(n as int) =~= Seq::<char>::empty());
        assert(rle_encode_spec(data@) =~= out@);
    }
    chars_to_string(&out)
}

/// Decodes run-length-encoded text: each pair of a character and one count
/// digit expands to that many copies of the character. Callers must ensure
/// every count position holds a digit; [`rle_decode_opt`] checks this
/// instead of requiring it.
pub fn rle_decode(data: &str) -> (r: String)
    requires
        counts_ok(data@),
    ensures
        r@ == rle_decode_spec(data@),
{
    let chars = str_to_chars(data);
    let n = chars.len();
    let mut out: Vec<char> = Vec::new();
    let mut i: usize = 0;
    proof {
        assert(chars@.skip(0) =~= chars@);
        assert(out@ + rle_decode_spec(chars@) =~= rle_decode_spec(chars@));
    }
    while i + 1 < n
        invariant
            i <= n,
            n == chars.len(),
            chars@ == data@,
            counts_ok(data@),
            i % 2 == 0,
            rle_decode_spec(data@) == out@ + rle_decode_spec(chars@.skip(i as int)),
        decreases n - i,
    {
        let c = chars[i];
        let d = chars[i + 1];
        proof {
            assert(is_count_digit(chars@[i + 1]));
        }
        let count = digit_val_exec(d);
        let ghost tail = chars@.skip(i as int);
        let ghost out0 = out@;
        push_repeat(&mut out, c, count);
        proof {
            assert(tail[0] == c && tail[1] == d);
            assert(rle_decode_spec(tail) == Seq::new(count as nat, |k: int| c) + rle_decode_spec(
                tail.skip(2),
            ));
            assert(tail.skip(2) =~= chars@.skip(i + 2 as int));
            assert(out0 + (Seq::new(count as nat, |k: int| c) + rle_decode_spec(tail.skip(2))) =~= (
            out0 + Seq::new(count as nat, |k: int| c)) + rle_decode_spec(tail.skip(2)));
        }
        i = i + 2;
    }
    proof {
        assert(chars@.skip(i as int).len() < 2);
        assert(rle_decode_spec(data@) =~= out@);
    }
    chars_to_string(&out)
}

/// Decodes like [`rle_decode`], after checking that every count position
/// holds a digit; returns `None` exactly when one does not.
pub fn rle_decode_opt(data: &str) -> (r: Option<String>)
    ensures
        r is Some <==> counts_ok(data@),
        r matches Some(s) ==> s@ == rle_decode_spec(data@),
{
    let chars = str_to_chars(data);
    let n = chars.len();
    let mut i: usize = 0;
    while i < n
        invariant
            i <= n,
            n == chars.len(),
            chars@ == data@,
            forall|k: int| 0 <= k < i && k % 2 == 1 ==> is_count_digit(#[trigger] chars@[k]),
        decreases n - i,
    {
        if i % 2 == 1 && !is_count_digit_exec(chars[i]) {
            proof {
                assert(!counts_ok(data@));
            }
            return None;
        }
        i = i + 1;
    }
    proof {
        assert(counts_ok(data@));
    }
    Some(rle_decode(data))
}

/// Decoding inverts encoding on every input whose maximal runs each fit in
/// one count digit.
pub proof fn lemma_rle_round_trip(s: Seq<char>)
    requires
        runs_bounded(s),
    ensures
        rle_decode_spec(rle_encode_spec(s)) == s,
    decreases s.len(),
{
    if s.len() > 0 {
        lemma_head_run_len_bounds(s);
        lemma_head_run_prefix(s);
        let r = head_run_len(s);
        let enc = rle_encode_spec(s);
        assert(dec_rep(r as nat) == seq![digit_char(r)]);
        assert(enc =~= seq![s[0], digit_char(r)] + rle_encode_spec(s.skip(r)));
        assert(digit_val(digit_char(r)) == r);
        assert(enc.skip(2) =~= rle_encode_spec(s.skip(r)));
        lemma_rle_round_trip(s.skip(r));
        assert(rle_decode_spec(enc) == Seq::new(r as nat, |k: int| s[0]) + s.skip(r));
        assert(Seq::new(r as nat, |k: int| s[0]) + s.skip(r) =~= s);
    }
}

/// Encoding yields digits at every count position and text of even length,
/// whenever every run fits in one count digit.
pub proof fn lemma_encode_counts_ok(s: Seq<char>)
    requires
        runs_bounded(s),
    ensures
        counts_ok(rle_encode_spec(s)),
        rle_encode_spec(s).len() % 2 == 0,
    decreases s.len(),
{
    if s.len() > 0 {
        lemma_head_run_len_bounds(s);
        let r = head_run_len(s);
        let enc = rle_encode_spec(s);
        let rest = rle_encode_spec(s.skip(r));
        assert(dec_rep(r as nat) == seq![digit_char(r)]);
        assert(enc =~= seq![s[0], digit_char(r)] + rest);
        lemma_encode_counts_ok(s.skip(r));
        assert forall|i: int| 0 <= i < enc.len() && i % 2 == 1 implies is_count_digit(
            #[trigger] enc[i],
        ) by {
            if i == 1 {
                assert(enc[1] == digit_char(r));
            } else {
                assert(enc[i] == rest[i - 2]);
                assert(is_count_digit(rest[i - 2]));
            }
        }
    }
}

} // verus!
