//! Character-level string helpers with exact specifications over `Seq<char>`.

use vstd::prelude::*;

verus! {

/// Unicode `White_Space` property, as used by `char::is_whitespace`,
/// `str::trim` and `str::split_whitespace`.
pub open spec fn is_ws(c: char) -> bool {
    let u = c as u32;
    ||| 0x09 <= u <= 0x0d
    ||| u == 0x20
    ||| u == 0x85
    ||| u == 0xa0
    ||| u == 0x1680
    ||| 0x2000 <= u <= 0x200a
    ||| u == 0x2028
    ||| u == 0x2029
    ||| u == 0x202f
    ||| u == 0x205f
    ||| u == 0x3000
}

/// Whether `c` is Unicode white space.
pub fn is_whitespace(c: char) -> (r: bool)
    ensures
        r == is_ws(c),
{
    let u = c as u32;
    (0x09 <= u && u <= 0x0d) || u == 0x20 || u == 0x85 || u == 0xa0 || u == 0x1680 || (0x2000
        <= u && u <= 0x200a) || u == 0x2028 || u == 0x2029 || u == 0x202f || u == 0x205f || u
        == 0x3000
}

/// The characters of `s`, in order.
pub fn chars_of(s: &str) -> (r: Vec<char>)
    ensures
        r@ == s@,
{
    let mut r: Vec<char> = Vec::new();
    for c in it: s.chars()
        invariant
            r@ == it.seq().take(it.index() as int),
            it.seq() == s@,
    {
        r.push(c);
    }
    r
}


/// Appends `c` to `s` (`String::push`).
#[verifier::external_body]
fn push_char(s: &mut String, c: char)
    ensures
        final(s)@ == old(s)@.push(c),
{
    s.push(c);
}

/// The string made of the characters of `v`.
pub fn string_of(v: &Vec<char>) -> (r: String)
    ensures
        r@ == v@,
{
    let mut r = String::new();
    let mut i: usize = 0;
    while i < v.len()
        invariant
            i <= v.len(),
            r@ == v@.take(i as int),
        decreases v.len() - i,
    {
        push_char(&mut r, v[i]);
        i = i + 1;
        assert(r@ =~= v@.take(i as int));
    }
    assert(v@.take(v.len() as int) =~= v@);
    r
}

/// The characters `v[lo..hi]` as a new vector.
pub fn sub_chars(v: &Vec<char>, lo: usize, hi: usize) -> (r: Vec<char>)
    requires
        lo <= hi <= v.len(),
    ensures
        r@ == v@.subrange(lo as int, hi as int),
{
    let mut r: Vec<char> = Vec::new();
    let mut i = lo;
    while i < hi
        invariant
            lo <= i <= hi <= v.len(),
            r@ == v@.subrange(lo as int, i as int),
        decreases hi - i,
    {
        r.push(v[i]);
        i = i + 1;
        assert(r@ =~= v@.subrange(lo as int, i as int));
    }
    r
}

/// Appends all of `w` to `v`.
pub fn push_all(v: &mut Vec<char>, w: &Vec<char>)
    ensures
        final(v)@ == old(v)@ + w@,
{
    let ghost v0 = v@;
    let mut i: usize = 0;
    while i < w.len()
        invariant
            i <= w.len(),
            v@ == v0 + w@.take(i as int),
        decreases w.len() - i,
    {
        v.push(w[i]);
        i = i + 1;
        assert(v@ =~= v0 + w@.take(i as int));
    }
    assert(w@.take(w.len() as int) =~= w@);
}

/// Appends the characters of `s` to `v`.
pub fn push_str(v: &mut Vec<char>, s: &str)
    ensures
        final(v)@ == old(v)@ + s@,
{
    let w = chars_of(s);
    push_all(v, &w);
}

/// `s` with leading white space removed.
pub open spec fn trim_start(s: Seq<char>) -> Seq<char>
    decreases s.len(),
{
    if s.len() > 0 && is_ws(s[0]) {
        trim_start(s.drop_first())
    } else {
        s
    }
}

/// `s` with trailing white space removed.
pub open spec fn trim_end(s: Seq<char>) -> Seq<char>
    decreases s.len(),
{
    if s.len() > 0 && is_ws(s.last()) {
        trim_end(s.drop_last())
    } else {
        s
    }
}

/// `s` with leading and trailing white space removed (`str::trim`).
pub open spec fn trim(s: Seq<char>) -> Seq<char> {
    trim_end(trim_start(s))
}

proof fn lemma_trim_start_skip(s: Seq<char>, i: int)
    requires
        0 <= i <= s.len(),
        forall|k: int| 0 <= k < i ==> is_ws(#[trigger] s[k]),
    ensures
        trim_start(s) == trim_start(s.skip(i)),
    decreases i,
{
    if i == 0 {
        assert(s.skip(0) =~= s);
    } else {
        assert(trim_start(s) == trim_start(s.drop_first()));
        lemma_trim_start_skip(s.drop_first(), i - 1);
        assert(s.drop_first().skip(i - 1) =~= s.skip(i));
    }
}

proof fn lemma_trim_end_take(s: Seq<char>, j: int)
    requires
        0 <= j <= s.len(),
        forall|k: int| j <= k < s.len() ==> is_ws(#[trigger] s[k]),
    ensures
        trim_end(s) == trim_end(s.take(j)),
    decreases s.len() - j,
{
    if j == s.len() {
        assert(s.take(j) =~= s);
    } else {
        assert(trim_end(s) == trim_end(s.drop_last()));
        lemma_trim_end_take(s.drop_last(), j);
        assert(s.drop_last().take(j) =~= s.take(j));
    }
}

/// Bounds `(i, j)` with `trim(v@) == v@.subrange(i, j)`.
pub fn trim_bounds(v: &Vec<char>) -> (r: (usize, usize))
    ensures
        r.0 <= r.1 <= v.len(),
        trim(v@) == v@.subrange(r.0 as int, r.1 as int),
{
    let mut i: usize = 0;
    while i < v.len() && is_whitespace(v[i])
        invariant
            i <= v.len(),
            forall|k: int| 0 <= k < i ==> is_ws(#[trigger] v@[k]),
        decreases v.len() - i,
    {
        i = i + 1;
    }
    let mut j: usize = v.len();
    while j > i && is_whitespace(v[j - 1])
        invariant
            i <= j <= v.len(),
            forall|k: int| j <= k < v.len() ==> is_ws(#[trigger] v@[k]),
        decreases j,
    {
        j = j - 1;
    }
    proof {
        lemma_trim_start_skip(v@, i as int);
        let t = v@.skip(i as int);
        if i < v.len() {
            assert(t[0] == v@[i as int]);
            assert(trim_start(t) == t);
        } else {
            assert(t.len() == 0);
        }
        lemma_trim_end_take(t, j - i);
        let u = t.take(j - i);
        assert(u =~= v@.subrange(i as int, j as int));
        if j > i {
            assert(u.last() == v@[j - 1]);
        }
        assert(trim_end(u) == u);
    }
    (i, j)
}

/// `trim(v@)` as a new vector.
pub fn trim_chars(v: &Vec<char>) -> (r: Vec<char>)
    ensures
        r@ == trim(v@),
{
    let (i, j) = trim_bounds(v);
    sub_chars(v, i, j)
}


/// The character sequences held by `v`.
pub open spec fn seqs_of(v: Seq<Vec<char>>) -> Seq<Seq<char>> {
    v.map_values(|x: Vec<char>| x@)
}

/// The character sequences held by `v`.
pub open spec fn strs_of(v: Seq<String>) -> Seq<Seq<char>> {
    v.map_values(|x: String| x@)
}

/// `s` split at every occurrence of `c` (`str::split` with a char pattern).
pub open spec fn split(s: Seq<char>, c: char) -> Seq<Seq<char>>
    decreases s.len(),
{
    if s.len() == 0 {
        seq![Seq::<char>::empty()]
    } else {
        let r = split(s.drop_first(), c);
        if s[0] == c {
            seq![Seq::<char>::empty()] + r
        } else {
            r.update(0, seq![s[0]] + r[0])
        }
    }
}

/// `r` with `p` put in front of its first piece.
pub open spec fn prepend_first(p: Seq<char>, r: Seq<Seq<char>>) -> Seq<Seq<char>> {
    r.update(0, p + r[0])
}

pub proof fn lemma_split_nonempty(s: Seq<char>, c: char)
    ensures
        split(s, c).len() >= 1,
    decreases s.len(),
{
    if s.len() > 0 {
        lemma_split_nonempty(s.drop_first(), c);
    }
}

/// `s` split at every `c`.
pub fn split_chars(v: &Vec<char>, c: char) -> (r: Vec<Vec<char>>)
    ensures
        seqs_of(r@) == split(v@, c),
{
    let mut pieces: Vec<Vec<char>> = Vec::new();
    let mut cur: Vec<char> = Vec::new();
    let mut i: usize = 0;
    proof {
        assert(v@.skip(0) =~= v@);
        lemma_split_nonempty(v@, c);
        let r0 = split(v@, c);
        assert(Seq::<char>::empty() + r0[0] =~= r0[0]);
        assert(prepend_first(cur@, r0) =~= r0);
        assert(seqs_of(pieces@) =~= Seq::<Seq<char>>::empty());
    }
    while i < v.len()
        invariant
            i <= v.len(),
            seqs_of(pieces@) + prepend_first(cur@, split(v@.skip(i as int), c)) == split(v@, c),
        decreases v.len() - i,
    {
        let ghost rest = v@.skip(i as int);
        let ghost tail = split(v@.skip(i + 1), c);
        proof {
            assert(rest.drop_first() =~= v@.skip(i + 1));
            lemma_split_nonempty(v@.skip(i + 1), c);
        }
        if v[i] == c {
            let ghost old_pieces = seqs_of(pieces@);
            let ghost old_cur = cur@;
            pieces.push(cur);
            cur = Vec::new();
            proof {
                assert(seqs_of(pieces@) =~= old_pieces.push(old_cur));
                assert(split(rest, c) == seq![Seq::<char>::empty()] + tail);
                assert(old_pieces + prepend_first(old_cur, split(rest, c)) =~= seqs_of(pieces@)
                    + prepend_first(cur@, tail));
            }
        } else {
            let ghost old_cur = cur@;
            cur.push(v[i]);
            proof {
                assert(split(rest, c) == prepend_first(seq![v@[i as int]], tail));
                assert(old_cur + (seq![v@[i as int]] + tail[0]) =~= cur@ + tail[0]);
                assert(prepend_first(old_cur, split(rest, c)) =~= prepend_first(cur@, tail));
            }
        }
        i = i + 1;
    }
    let ghost old_pieces = seqs_of(pieces@);
    let ghost last = cur@;
    pieces.push(cur);
    proof {
        assert(v@.skip(i as int) =~= Seq::<char>::empty());
        assert(seqs_of(pieces@) =~= old_pieces.push(last));
        assert(old_pieces + prepend_first(last, split(Seq::<char>::empty(), c)) =~= seqs_of(pieces@));
    }
    pieces
}

/// `items` joined with `sep` between consecutive items (`[T]::join`).
pub open spec fn join(items: Seq<Seq<char>>, sep: Seq<char>) -> Seq<char>
    decreases items.len(),
{
    if items.len() == 0 {
        Seq::<char>::empty()
    } else if items.len() == 1 {
        items[0]
    } else {
        join(items.drop_last(), sep) + sep + items.last()
    }
}

/// `items` joined with `sep`.
pub fn join_chars(items: &Vec<Vec<char>>, sep: &Vec<char>) -> (r: Vec<char>)
    ensures
        r@ == join(seqs_of(items@), sep@),
{
    let mut r: Vec<char> = Vec::new();
    let mut i: usize = 0;
    while i < items.len()
        invariant
            i <= items.len(),
            r@ == join(seqs_of(items@).take(i as int), sep@),
        decreases items.len() - i,
    {
        let ghost before = seqs_of(items@).take(i as int);
        let ghost after = seqs_of(items@).take(i + 1);
        if i > 0 {
            push_all(&mut r, sep);
        }
        push_all(&mut r, &items[i]);
        proof {
            assert(after.drop_last() =~= before);
            assert(after.last() == items[i as int]@);
            if i == 0 {
                assert(after.len() == 1);
            }
        }
        i = i + 1;
    }
    assert(seqs_of(items@).take(items.len() as int) =~= seqs_of(items@));
    r
}


/// `l` without one trailing carriage return.
pub open spec fn strip_cr(l: Seq<char>) -> Seq<char> {
    if l.len() > 0 && l.last() == '\r' {
        l.drop_last()
    } else {
        l
    }
}

/// The lines of `s` (`str::lines`): split at `\n`; a `\r` right before a
/// `\n` is dropped; a final line ending does not start an empty line.
pub open spec fn lines(s: Seq<char>) -> Seq<Seq<char>> {
    if s.len() == 0 {
        Seq::<Seq<char>>::empty()
    } else {
        let p = split(s, '\n');
        let body = p.drop_last().map_values(|l: Seq<char>| strip_cr(l));
        if s.last() == '\n' {
            body
        } else {
            body.push(p.last())
        }
    }
}

/// The lines of `v`.
pub fn lines_chars(v: &Vec<char>) -> (r: Vec<Vec<char>>)
    ensures
        seqs_of(r@) == lines(v@),
{
    let mut r: Vec<Vec<char>> = Vec::new();
    if v.len() == 0 {
        assert(seqs_of(r@) =~= lines(v@));
        return r;
    }
    let parts = split_chars(v, '\n');
    proof {
        lemma_split_nonempty(v@, '\n');
    }
    let n = parts.len();
    let ghost p = split(v@, '\n');
    let mut i: usize = 0;
    while i + 1 < n
        invariant
            n == parts.len() >= 1,
            seqs_of(parts@) == p,
            i + 1 <= n,
            seqs_of(r@) == p.take(i as int).map_values(|l: Seq<char>| strip_cr(l)),
        decreases n - i,
    {
        let piece = &parts[i];
        let l = piece.len();
        let stripped = if l > 0 && piece[l - 1] == '\r' {
            sub_chars(piece, 0, l - 1)
        } else {
            sub_chars(piece, 0, l)
        };
        proof {
            assert(piece@ == p[i as int]);
            assert(stripped@ =~= strip_cr(p[i as int]));
        }
        let ghost before = seqs_of(r@);
        let ghost sv = stripped@;
        r.push(stripped);
        assert(seqs_of(r@) =~= before.push(sv));
        i = i + 1;
        assert(p.take(i as int).drop_last() =~= p.take(i - 1));
        assert(seqs_of(r@) =~= p.take(i as int).map_values(|l: Seq<char>| strip_cr(l)));
    }
    assert(p.take(i as int) =~= p.drop_last());
    if v[v.len() - 1] != '\n' {
        let last = sub_chars(&parts[n - 1], 0, parts[n - 1].len());
        assert(last@ =~= p.last());
        let ghost before = seqs_of(r@);
        r.push(last);
        assert(seqs_of(r@) =~= before.push(p.last()));
    }
    r
}

/// The character of decimal digit `d`.
pub open spec fn digit_char(d: int) -> char {
    (48 + d) as char
}

/// Decimal notation of `n` (as `Display` writes an unsigned integer).
pub open spec fn dec(n: nat) -> Seq<char>
    decreases n,
{
    if n < 10 {
        seq![digit_char(n as int)]
    } else {
        dec(n / 10).push(digit_char((n % 10) as int))
    }
}

/// Decimal notation of `n`.
pub fn dec_chars(n: u64) -> (r: Vec<char>)
    ensures
        r@ == dec(n as nat),
    decreases n,
{
    let d = (n % 10) as u8;
    let c = (48u8 + d) as char;
    if n < 10 {
        let mut r: Vec<char> = Vec::new();
        r.push(c);
        assert(r@ =~= dec(n as nat));
        r
    } else {
        let mut r = dec_chars(n / 10);
        r.push(c);
        r
    }
}

/// Whether `c` is an ASCII decimal digit.
pub open spec fn is_digit(c: char) -> bool {
    '0' <= c <= '9'
}

/// Value of a string of decimal digits.
pub open spec fn digits_value(s: Seq<char>) -> nat
    decreases s.len(),
{
    if s.len() == 0 {
        0
    } else {
        (10 * digits_value(s.drop_last()) + ((s.last() as u32) - 48)) as nat
    }
}

/// Whether `s` is a non-empty run of ASCII digits.
pub open spec fn all_digits(s: Seq<char>) -> bool {
    s.len() > 0 && forall|i: int| 0 <= i < s.len() ==> is_digit(#[trigger] s[i])
}

/// `u32::from_str`: an optional `+`, then digits, in range.
pub open spec fn parse_u32_spec(s: Seq<char>) -> Option<u32> {
    let digits = if s.len() > 0 && s[0] == '+' { s.drop_first() } else { s };
    if all_digits(digits) && digits_value(digits) <= u32::MAX {
        Some(digits_value(digits) as u32)
    } else {
        None
    }
}

/// `i64::from_str`: an optional sign, then digits, in range.
pub open spec fn parse_i64_spec(s: Seq<char>) -> Option<i64> {
    let neg = s.len() > 0 && s[0] == '-';
    let digits = if s.len() > 0 && (s[0] == '+' || s[0] == '-') { s.drop_first() } else { s };
    if !all_digits(digits) {
        None
    } else if neg {
        if digits_value(digits) <= 0x8000_0000_0000_0000 {
            Some((0 - digits_value(digits)) as i64)
        } else {
            None
        }
    } else if digits_value(digits) <= i64::MAX {
        Some(digits_value(digits) as i64)
    } else {
        None
    }
}

proof fn lemma_digits_value_prefix(s: Seq<char>, i: int)
    requires
        0 <= i <= s.len(),
        forall|k: int| 0 <= k < s.len() ==> is_digit(#[trigger] s[k]),
    ensures
        digits_value(s.take(i)) <= digits_value(s),
    decreases s.len() - i,
{
    if i < s.len() {
        lemma_digits_value_prefix(s, i + 1);
        assert(s.take(i + 1).drop_last() =~= s.take(i));
        assert(s.take(i + 1).last() == s[i]);
    } else {
        assert(s.take(i) =~= s);
    }
}

/// The value of the digit run `v[from..]`, if every character there is a
/// digit, there is at least one, and the value is at most `bound`.
fn digits_up_to(v: &Vec<char>, from: usize, bound: u64) -> (r: Option<u64>)
    requires
        from <= v.len(),
        bound >= 9,
    ensures
        r == (if all_digits(v@.skip(from as int)) && digits_value(v@.skip(from as int)) <= bound {
            Some(digits_value(v@.skip(from as int)) as u64)
        } else {
            None
        }),
{
    let ghost s = v@.skip(from as int);
    if from == v.len() {
        return None;
    }
    let mut acc: u64 = 0;
    let mut i = from;
    while i < v.len()
        invariant
            from <= i <= v.len(),
            s == v@.skip(from as int),
            forall|k: int| 0 <= k < i - from ==> is_digit(#[trigger] s[k]),
            acc == digits_value(s.take(i - from)),
            acc <= bound,
            bound >= 9,
        decreases v.len() - i,
    {
        let c = v[i];
        if !('0' <= c && c <= '9') {
            assert(!is_digit(s[i - from]));
            return None;
        }
        let d = (c as u32 - 48) as u64;
        proof {
            assert(s.take(i + 1 - from).drop_last() =~= s.take(i - from));
            assert(s.take(i + 1 - from).last() == c);
        }
        if acc > (bound - d) / 10 {
            proof {
                assert(10 * acc + d > bound) by (nonlinear_arith)
                    requires
                        acc > (bound - d) / 10,
                        d <= 9,
                        d <= bound,
                ;
                assert forall|k: int| 0 <= k < s.len() implies is_digit(#[trigger] s[k]) || !all_digits(s) by {}
                if all_digits(s) {
                    lemma_digits_value_prefix(s, i + 1 - from);
                }
            }
            return None;
        }
        acc = acc * 10 + d;
        i = i + 1;
    }
    assert(s.take(i - from) =~= s);
    Some(acc)
}


/// `u32::from_str` on `v`.
pub fn parse_u32(v: &Vec<char>) -> (r: Option<u32>)
    ensures
        r == parse_u32_spec(v@),
{
    let from: usize = if v.len() > 0 && v[0] == '+' { 1 } else { 0 };
    proof {
        if from == 1 {
            assert(v@.skip(1) =~= v@.drop_first());
        } else {
            assert(v@.skip(0) =~= v@);
        }
    }
    match digits_up_to(v, from, 0xffff_ffff) {
        Some(x) => Some(x as u32),
        None => None,
    }
}

/// `i64::from_str` on `v`.
pub fn parse_i64(v: &Vec<char>) -> (r: Option<i64>)
    ensures
        r == parse_i64_spec(v@),
{
    let neg = v.len() > 0 && v[0] == '-';
    let from: usize = if v.len() > 0 && (v[0] == '+' || v[0] == '-') { 1 } else { 0 };
    proof {
        if from == 1 {
            assert(v@.skip(1) =~= v@.drop_first());
        } else {
            assert(v@.skip(0) =~= v@);
        }
    }
    let bound: u64 = if neg { 0x8000_0000_0000_0000 } else { 0x7fff_ffff_ffff_ffff };
    match digits_up_to(v, from, bound) {
        Some(x) => {
            if neg {
                if x == 0x8000_0000_0000_0000 {
                    Some(i64::MIN)
                } else {
                    Some(0 - (x as i64))
                }
            } else {
                Some(x as i64)
            }
        },
        None => None,
    }
}

/// Whether `v` and `w` hold the same characters.
pub fn eq_chars(v: &Vec<char>, w: &Vec<char>) -> (r: bool)
    ensures
        r == (v@ == w@),
{
    if v.len() != w.len() {
        return false;
    }
    let mut i: usize = 0;
    while i < v.len()
        invariant
            i <= v.len() == w.len(),
            forall|k: int| 0 <= k < i ==> v@[k] == w@[k],
        decreases v.len() - i,
    {
        if v[i] != w[i] {
            return false;
        }
        i = i + 1;
    }
    assert(v@ =~= w@);
    true
}

/// Whether `p` occurs in `v` at position `at`.
pub fn matches_at(v: &Vec<char>, at: usize, p: &Vec<char>) -> (r: bool)
    ensures
        r == (at + p.len() <= v.len() && v@.subrange(at as int, at + p.len()) == p@),
{
    if at > v.len() || p.len() > v.len() - at {
        return false;
    }
    let mut i: usize = 0;
    while i < p.len()
        invariant
            i <= p.len(),
            at + p.len() <= v.len(),
            forall|k: int| 0 <= k < i ==> v@[at + k] == p@[k],
        decreases p.len() - i,
    {
        if v[at + i] != p[i] {
            assert(v@.subrange(at as int, at + p.len())[i as int] != p@[i as int]);
            return false;
        }
        i = i + 1;
    }
    assert(v@.subrange(at as int, at + p.len()) =~= p@);
    true
}

/// Whether `v` starts with `p`.
pub fn starts_with(v: &Vec<char>, p: &Vec<char>) -> (r: bool)
    ensures
        r == p@.is_prefix_of(v@),
{
    let r = matches_at(v, 0, p);
    assert(r == p@.is_prefix_of(v@)) by {
        if p.len() <= v.len() {
            assert(v@.subrange(0, p.len() as int) =~= v@.take(p.len() as int));
        }
    }
    r
}

/// Whether `v` ends with `p`.
pub fn ends_with(v: &Vec<char>, p: &Vec<char>) -> (r: bool)
    ensures
        r == p@.is_suffix_of(v@),
{
    if p.len() > v.len() {
        return false;
    }
    matches_at(v, v.len() - p.len(), p)
}

/// Whether `p` occurs somewhere in `s`.
pub open spec fn contains_seq(s: Seq<char>, p: Seq<char>) -> bool {
    exists|i: int| 0 <= i && i + p.len() <= s.len() && #[trigger] s.subrange(i, i + p.len()) == p
}

/// Whether `p` occurs somewhere in `v`.
pub fn contains_chars(v: &Vec<char>, p: &Vec<char>) -> (r: bool)
    ensures
        r == contains_seq(v@, p@),
{
    if p.len() > v.len() {
        return false;
    }
    let last = v.len() - p.len();
    let mut i: usize = 0;
    loop
        invariant
            p.len() <= v.len(),
            last == v.len() - p.len(),
            i <= last,
            forall|k: int| 0 <= k < i ==> #[trigger] v@.subrange(k, k + p.len()) != p@,
        ensures
            forall|k: int| 0 <= k <= last ==> #[trigger] v@.subrange(k, k + p.len()) != p@,
        decreases last - i,
    {
        if matches_at(v, i, p) {
            return true;
        }
        if i == last {
            break;
        }
        i = i + 1;
    }
    false
}


/// Index of the first `c` in `s`, or `s.len()` when there is none.
pub open spec fn find_char(s: Seq<char>, c: char) -> int
    decreases s.len(),
{
    if s.len() == 0 {
        0
    } else if s[0] == c {
        0
    } else {
        1 + find_char(s.drop_first(), c)
    }
}

pub proof fn lemma_find_char(s: Seq<char>, c: char)
    ensures
        0 <= find_char(s, c) <= s.len(),
        forall|k: int| 0 <= k < find_char(s, c) ==> s[k] != c,
        find_char(s, c) < s.len() ==> s[find_char(s, c)] == c,
    decreases s.len(),
{
    if s.len() > 0 && s[0] != c {
        lemma_find_char(s.drop_first(), c);
        assert forall|k: int| 0 <= k < find_char(s, c) implies s[k] != c by {
            if k > 0 {
                assert(s[k] == s.drop_first()[k - 1]);
            }
        }
    }
}

/// `str::split_once` with a char pattern: the parts before and after the
/// first `c`.
pub open spec fn split_once(s: Seq<char>, c: char) -> Option<(Seq<char>, Seq<char>)> {
    let i = find_char(s, c);
    if i < s.len() {
        Some((s.take(i), s.skip(i + 1)))
    } else {
        None
    }
}

/// Index of the first `c` in `v`, or `v.len()`.
pub fn find_char_in(v: &Vec<char>, c: char) -> (r: usize)
    ensures
        r == find_char(v@, c),
{
    proof {
        lemma_find_char(v@, c);
    }
    let mut i: usize = 0;
    while i < v.len()
        invariant
            i <= v.len(),
            forall|k: int| 0 <= k < i ==> v@[k] != c,
            0 <= find_char(v@, c) <= v.len(),
            forall|k: int| 0 <= k < find_char(v@, c) ==> v@[k] != c,
            find_char(v@, c) < v.len() ==> v@[find_char(v@, c)] == c,
        decreases v.len() - i,
    {
        if v[i] == c {
            return i;
        }
        i = i + 1;
    }
    i
}

/// `s` with every `c` replaced by `rep` (`str::replace` with a char pattern).
pub open spec fn replace_char(s: Seq<char>, c: char, rep: Seq<char>) -> Seq<char>
    decreases s.len(),
{
    if s.len() == 0 {
        s
    } else {
        replace_char(s.drop_last(), c, rep) + (if s.last() == c {
            rep
        } else {
            seq![s.last()]
        })
    }
}

/// `v` with every `c` replaced by `rep`.
pub fn replace_char_in(v: &Vec<char>, c: char, rep: &Vec<char>) -> (r: Vec<char>)
    ensures
        r@ == replace_char(v@, c, rep@),
{
    let mut r: Vec<char> = Vec::new();
    let mut i: usize = 0;
    assert(r@ =~= replace_char(v@.take(0), c, rep@));
    while i < v.len()
        invariant
            i <= v.len(),
            r@ == replace_char(v@.take(i as int), c, rep@),
        decreases v.len() - i,
    {
        if v[i] == c {
            push_all(&mut r, rep);
        } else {
            r.push(v[i]);
        }
        proof {
            assert(v@.take(i + 1).drop_last() =~= v@.take(i as int));
            assert(v@.take(i + 1).last() == v@[i as int]);
        }
        i = i + 1;
        assert(r@ =~= replace_char(v@.take(i as int), c, rep@));
    }
    assert(v@.take(v.len() as int) =~= v@);
    r
}


/// `s` with every leftmost non-overlapping occurrence of the non-empty
/// `from` replaced by `to` (`str::replace`).
pub open spec fn replace_all(s: Seq<char>, from: Seq<char>, to: Seq<char>) -> Seq<char>
    recommends
        from.len() > 0,
    decreases s.len(),
{
    if from.len() == 0 || s.len() < from.len() {
        s
    } else if from.is_prefix_of(s) {
        to + replace_all(s.skip(from.len() as int), from, to)
    } else {
        seq![s[0]] + replace_all(s.drop_first(), from, to)
    }
}

/// `v` with every occurrence of the non-empty `from` replaced by `to`.
pub fn replace_all_in(v: &Vec<char>, from: &Vec<char>, to: &Vec<char>) -> (r: Vec<char>)
    requires
        from.len() > 0,
    ensures
        r@ == replace_all(v@, from@, to@),
{
    let mut r: Vec<char> = Vec::new();
    let mut i: usize = 0;
    assert(v@.skip(0) =~= v@);
    while i < v.len()
        invariant
            i <= v.len(),
            from.len() > 0,
            r@ + replace_all(v@.skip(i as int), from@, to@) == replace_all(v@, from@, to@),
        decreases v.len() - i,
    {
        let ghost rest = v@.skip(i as int);
        if matches_at(v, i, from) {
            proof {
                assert(rest.take(from.len() as int) =~= v@.subrange(i as int, i + from.len()));
                assert(from@.is_prefix_of(rest));
                assert(rest.skip(from.len() as int) =~= v@.skip(i + from.len()));
            }
            let ghost r0 = r@;
            push_all(&mut r, to);
            assert(r@ + replace_all(v@.skip(i + from.len()), from@, to@) =~= r0 + replace_all(rest, from@, to@));
            i = i + from.len();
        } else {
            proof {
                if rest.len() >= from.len() {
                    assert(rest.take(from.len() as int) =~= v@.subrange(i as int, i + from.len()));
                    assert(!from@.is_prefix_of(rest));
                    assert(rest.drop_first() =~= v@.skip(i + 1));
                } else {
                    assert(replace_all(rest, from@, to@) == rest);
                    assert(replace_all(v@.skip(i + 1), from@, to@) == v@.skip(i + 1));
                    assert(rest =~= seq![v@[i as int]] + v@.skip(i + 1));
                }
                assert(rest[0] == v@[i as int]);
            }
            let ghost r0 = r@;
            r.push(v[i]);
            assert(r@ + replace_all(v@.skip(i + 1), from@, to@) =~= r0 + replace_all(rest, from@, to@));
            i = i + 1;
        }
    }
    assert(v@.skip(i as int) =~= Seq::<char>::empty());
    assert(r@ =~= replace_all(v@, from@, to@));
    r
}

/// ASCII lower case of `c`.
pub open spec fn ascii_lower(c: char) -> char {
    if 'A' <= c <= 'Z' {
        ((c as u32) + 32) as char
    } else {
        c
    }
}

/// `str::eq_ignore_ascii_case`.
pub open spec fn eq_ignore_ascii_case(a: Seq<char>, b: Seq<char>) -> bool {
    a.len() == b.len() && forall|i: int| 0 <= i < a.len() ==> ascii_lower(#[trigger] a[i]) == ascii_lower(b[i])
}

fn to_ascii_lower(c: char) -> (r: char)
    ensures
        r == ascii_lower(c),
{
    if 'A' <= c && c <= 'Z' {
        ((c as u8) + 32) as char
    } else {
        c
    }
}

/// Whether `a` and `b` are equal ignoring ASCII case.
pub fn eq_ignore_case(a: &Vec<char>, b: &Vec<char>) -> (r: bool)
    ensures
        r == eq_ignore_ascii_case(a@, b@),
{
    if a.len() != b.len() {
        return false;
    }
    let mut i: usize = 0;
    while i < a.len()
        invariant
            i <= a.len() == b.len(),
            forall|k: int| 0 <= k < i ==> ascii_lower(#[trigger] a@[k]) == ascii_lower(b@[k]),
        decreases a.len() - i,
    {
        if to_ascii_lower(a[i]) != to_ascii_lower(b[i]) {
            return false;
        }
        i = i + 1;
    }
    true
}

/// The non-empty items of `xs`.
pub open spec fn nonempty_only(xs: Seq<Seq<char>>) -> Seq<Seq<char>>
    decreases xs.len(),
{
    if xs.len() == 0 {
        xs
    } else {
        let r = nonempty_only(xs.drop_last());
        if xs.last().len() > 0 {
            r.push(xs.last())
        } else {
            r
        }
    }
}

/// The non-empty items of `xs`.
pub fn keep_nonempty(xs: &Vec<Vec<char>>) -> (r: Vec<Vec<char>>)
    ensures
        seqs_of(r@) == nonempty_only(seqs_of(xs@)),
{
    let ghost s = seqs_of(xs@);
    let mut r: Vec<Vec<char>> = Vec::new();
    let mut i: usize = 0;
    assert(seqs_of(r@) =~= nonempty_only(s.take(0)));
    while i < xs.len()
        invariant
            i <= xs.len(),
            s == seqs_of(xs@),
            seqs_of(r@) == nonempty_only(s.take(i as int)),
        decreases xs.len() - i,
    {
        proof {
            assert(s.take(i + 1).drop_last() =~= s.take(i as int));
            assert(s.take(i + 1).last() == s[i as int]);
        }
        if xs[i].len() > 0 {
            let c = sub_chars(&xs[i], 0, xs[i].len());
            assert(c@ =~= s[i as int]);
            let ghost r0 = seqs_of(r@);
            r.push(c);
            assert(seqs_of(r@) =~= r0.push(s[i as int]));
        }
        i = i + 1;
    }
    assert(s.take(xs.len() as int) =~= s);
    r
}


/// `s` split at every white-space character (the pieces that
/// `str::split(char::is_whitespace)` gives).
pub open spec fn split_ws_raw(s: Seq<char>) -> Seq<Seq<char>>
    decreases s.len(),
{
    if s.len() == 0 {
        seq![Seq::<char>::empty()]
    } else {
        let r = split_ws_raw(s.drop_first());
        if is_ws(s[0]) {
            seq![Seq::<char>::empty()] + r
        } else {
            r.update(0, seq![s[0]] + r[0])
        }
    }
}

/// The white-space separated words of `s` (`str::split_whitespace`).
pub open spec fn words(s: Seq<char>) -> Seq<Seq<char>> {
    nonempty_only(split_ws_raw(s))
}

pub proof fn lemma_split_ws_nonempty(s: Seq<char>)
    ensures
        split_ws_raw(s).len() >= 1,
    decreases s.len(),
{
    if s.len() > 0 {
        lemma_split_ws_nonempty(s.drop_first());
    }
}

/// The words of `v`.
pub fn words_of(v: &Vec<char>) -> (r: Vec<Vec<char>>)
    ensures
        seqs_of(r@) == words(v@),
{
    let mut pieces: Vec<Vec<char>> = Vec::new();
    let mut cur: Vec<char> = Vec::new();
    let mut i: usize = 0;
    proof {
        assert(v@.skip(0) =~= v@);
        lemma_split_ws_nonempty(v@);
        let r0 = split_ws_raw(v@);
        assert(Seq::<char>::empty() + r0[0] =~= r0[0]);
        assert(prepend_first(cur@, r0) =~= r0);
        assert(seqs_of(pieces@) =~= Seq::<Seq<char>>::empty());
    }
    while i < v.len()
        invariant
            i <= v.len(),
            seqs_of(pieces@) + prepend_first(cur@, split_ws_raw(v@.skip(i as int))) == split_ws_raw(v@),
        decreases v.len() - i,
    {
        let ghost rest = v@.skip(i as int);
        let ghost tail = split_ws_raw(v@.skip(i + 1));
        proof {
            assert(rest.drop_first() =~= v@.skip(i + 1));
            lemma_split_ws_nonempty(v@.skip(i + 1));
        }
        if is_whitespace(v[i]) {
            let ghost old_pieces = seqs_of(pieces@);
            let ghost old_cur = cur@;
            pieces.push(cur);
            cur = Vec::new();
            proof {
                assert(seqs_of(pieces@) =~= old_pieces.push(old_cur));
                assert(split_ws_raw(rest) == seq![Seq::<char>::empty()] + tail);
                assert(old_pieces + prepend_first(old_cur, split_ws_raw(rest)) =~= seqs_of(pieces@)
                    + prepend_first(cur@, tail));
            }
        } else {
            let ghost old_cur = cur@;
            cur.push(v[i]);
            proof {
                assert(split_ws_raw(rest) == prepend_first(seq![v@[i as int]], tail));
                assert(old_cur + (seq![v@[i as int]] + tail[0]) =~= cur@ + tail[0]);
                assert(prepend_first(old_cur, split_ws_raw(rest)) =~= prepend_first(cur@, tail));
            }
        }
        i = i + 1;
    }
    let ghost old_pieces = seqs_of(pieces@);
    let ghost last = cur@;
    pieces.push(cur);
    proof {
        assert(v@.skip(i as int) =~= Seq::<char>::empty());
        assert(seqs_of(pieces@) =~= old_pieces.push(last));
        assert(old_pieces + prepend_first(last, split_ws_raw(Seq::<char>::empty())) =~= seqs_of(pieces@));
    }
    keep_nonempty(&pieces)
}


/// `s` holds no `c`.
pub open spec fn free_of(s: Seq<char>, c: char) -> bool {
    forall|k: int| 0 <= k < s.len() ==> s[k] != c
}

/// `s` fits on one line: it holds neither a line feed nor a carriage return.
pub open spec fn one_line(s: Seq<char>) -> bool {
    free_of(s, '\n') && free_of(s, '\r')
}

pub proof fn lemma_split_free(x: Seq<char>, c: char)
    requires
        free_of(x, c),
    ensures
        split(x, c) == seq![x],
    decreases x.len(),
{
    if x.len() > 0 {
        let d = x.drop_first();
        assert(free_of(d, c)) by {
            assert forall|k: int| 0 <= k < d.len() implies d[k] != c by {
                assert(d[k] == x[k + 1]);
            }
        }
        lemma_split_free(d, c);
        assert(seq![x[0]] + d =~= x);
    } else {
        assert(x =~= Seq::<char>::empty());
    }
}

pub proof fn lemma_split_concat(x: Seq<char>, y: Seq<char>, c: char)
    ensures
        split(x + seq![c] + y, c) == split(x, c) + split(y, c),
    decreases x.len(),
{
    let s = x + seq![c] + y;
    if x.len() == 0 {
        assert(s.drop_first() =~= y);
        assert(x =~= Seq::<char>::empty());
        assert(split(x, c) == seq![Seq::<char>::empty()]);
        assert(split(s, c) =~= split(x, c) + split(y, c));
    } else {
        let x1 = x.drop_first();
        assert(s.drop_first() =~= x1 + seq![c] + y);
        lemma_split_concat(x1, y, c);
        lemma_split_nonempty(x1, c);
        lemma_split_nonempty(y, c);
        assert(s[0] == x[0]);
        if x[0] == c {
            assert(split(s, c) =~= split(x, c) + split(y, c));
        } else {
            let r = split(x1, c) + split(y, c);
            assert(prepend_first(seq![x[0]], r) =~= prepend_first(seq![x[0]], split(x1, c)) + split(y, c));
        }
    }
}

/// Splitting a join at its separator gives the items back, when no item
/// holds the separator (an empty list gives one empty piece).
pub proof fn lemma_split_join(xs: Seq<Seq<char>>, c: char)
    requires
        forall|i: int| 0 <= i < xs.len() ==> free_of(#[trigger] xs[i], c),
    ensures
        split(join(xs, seq![c]), c) == (if xs.len() == 0 {
            seq![Seq::<char>::empty()]
        } else {
            xs
        }),
    decreases xs.len(),
{
    if xs.len() == 0 {
    } else if xs.len() == 1 {
        lemma_split_free(xs[0], c);
        assert(seq![xs[0]] =~= xs);
    } else {
        let d = xs.drop_last();
        lemma_split_join(d, c);
        lemma_split_concat(join(d, seq![c]), xs.last(), c);
        lemma_split_free(xs.last(), c);
        assert(join(d, seq![c]) + seq![c] + xs.last() == join(xs, seq![c]));
        assert(d.push(xs.last()) =~= xs);
    }
}

/// Every piece of `split(s, c)` is free of `c`, and of any `d` that `s` is
/// free of.
pub proof fn lemma_split_pieces(s: Seq<char>, c: char, d: char)
    requires
        free_of(s, d),
    ensures
        forall|i: int| 0 <= i < split(s, c).len() ==> free_of(#[trigger] split(s, c)[i], c) && free_of(
            split(s, c)[i],
            d,
        ),
    decreases s.len(),
{
    if s.len() > 0 {
        let t = s.drop_first();
        assert(free_of(t, d)) by {
            assert forall|k: int| 0 <= k < t.len() implies t[k] != d by {
                assert(t[k] == s[k + 1]);
            }
        }
        lemma_split_pieces(t, c, d);
        lemma_split_nonempty(t, c);
        let r = split(t, c);
        if s[0] == c {
            assert forall|i: int| 0 <= i < split(s, c).len() implies free_of(#[trigger] split(s, c)[i], c)
                && free_of(split(s, c)[i], d) by {
                if i > 0 {
                    assert(split(s, c)[i] == r[i - 1]);
                }
            }
        } else {
            assert forall|i: int| 0 <= i < split(s, c).len() implies free_of(#[trigger] split(s, c)[i], c)
                && free_of(split(s, c)[i], d) by {
                if i > 0 {
                    assert(split(s, c)[i] == r[i]);
                } else {
                    let p = seq![s[0]] + r[0];
                    assert(split(s, c)[0] == p);
                    assert forall|k: int| 0 <= k < p.len() implies p[k] != c && p[k] != d by {
                        if k > 0 {
                            assert(p[k] == r[0][k - 1]);
                        }
                    }
                }
            }
        }
    }
}

proof fn lemma_trim_start_len(s: Seq<char>)
    ensures
        trim_start(s).len() <= s.len(),
    decreases s.len(),
{
    if s.len() > 0 && is_ws(s[0]) {
        lemma_trim_start_len(s.drop_first());
    }
}

proof fn lemma_trim_end_len(s: Seq<char>)
    ensures
        trim_end(s).len() <= s.len(),
    decreases s.len(),
{
    if s.len() > 0 && is_ws(s.last()) {
        lemma_trim_end_len(s.drop_last());
    }
}

/// A trimmed non-empty text starts and ends with a character that is not
/// white space.
pub proof fn lemma_trimmed_ends(x: Seq<char>)
    requires
        trim(x) == x,
        x.len() > 0,
    ensures
        !is_ws(x[0]),
        !is_ws(x.last()),
{
    if is_ws(x[0]) {
        lemma_trim_start_len(x.drop_first());
        lemma_trim_end_len(trim_start(x));
        assert(trim_start(x) == trim_start(x.drop_first()));
    }
    assert(trim_start(x) == x);
    if is_ws(x.last()) {
        lemma_trim_end_len(x.drop_last());
        assert(trim_end(x) == trim_end(x.drop_last()));
    }
}

/// A text whose first and last characters are not white space is trimmed.
pub proof fn lemma_trimmed_by_ends(x: Seq<char>)
    requires
        x.len() > 0,
        !is_ws(x[0]),
        !is_ws(x.last()),
    ensures
        trim(x) == x,
{
    assert(trim_start(x) == x);
}

/// The decimal notation of `n` is a run of digits of value `n`.
pub proof fn lemma_dec_value(n: nat)
    ensures
        all_digits(dec(n)),
        digits_value(dec(n)) == n,
    decreases n,
{
    if n < 10 {
        let s = dec(n);
        assert(s.drop_last() =~= Seq::<char>::empty());
        assert((s.last() as u32) == 48 + n);
        assert(digits_value(s.drop_last()) == 0);
        assert(digits_value(s) == (10 * digits_value(s.drop_last()) + ((s.last() as u32) - 48)) as nat);
    } else {
        lemma_dec_value(n / 10);
        let s = dec(n);
        let d = dec(n / 10);
        assert(s.drop_last() =~= d);
        assert((s.last() as u32) == 48 + n % 10);
        assert forall|i: int| 0 <= i < s.len() implies is_digit(#[trigger] s[i]) by {
            if i < d.len() {
                assert(s[i] == d[i]);
            }
        }
        assert(10 * (n / 10) + n % 10 == n) by (nonlinear_arith);
        assert(digits_value(s) == (10 * digits_value(d) + ((s.last() as u32) - 48)) as nat);
    }
}

/// Splitting `k c v` once at `c`, where `k` holds no `c`, gives `k` and `v`.
pub proof fn lemma_split_once_at(k: Seq<char>, v: Seq<char>, c: char)
    requires
        free_of(k, c),
    ensures
        split_once(k + seq![c] + v, c) == Some((k, v)),
{
    let l = k + seq![c] + v;
    lemma_find_char(l, c);
    let i = find_char(l, c);
    assert(i == k.len()) by {
        if i < k.len() {
            assert(l[i] == k[i]);
        }
        if i > k.len() {
            assert(l[k.len() as int] == c);
        }
    }
    assert(l.take(i) =~= k);
    assert(l.skip(i + 1) =~= v);
}

/// `s` holds no white space.
pub open spec fn ws_free(s: Seq<char>) -> bool {
    forall|k: int| 0 <= k < s.len() ==> !is_ws(#[trigger] s[k])
}

proof fn lemma_split_ws_free(x: Seq<char>)
    requires
        ws_free(x),
    ensures
        split_ws_raw(x) == seq![x],
    decreases x.len(),
{
    if x.len() > 0 {
        let d = x.drop_first();
        assert(ws_free(d)) by {
            assert forall|k: int| 0 <= k < d.len() implies !is_ws(#[trigger] d[k]) by {
                assert(d[k] == x[k + 1]);
            }
        }
        lemma_split_ws_free(d);
        assert(!is_ws(x[0]));
        assert(seq![x[0]] + d =~= x);
    } else {
        assert(x =~= Seq::<char>::empty());
    }
}

proof fn lemma_split_ws_concat(x: Seq<char>, y: Seq<char>, c: char)
    requires
        is_ws(c),
    ensures
        split_ws_raw(x + seq![c] + y) == split_ws_raw(x) + split_ws_raw(y),
    decreases x.len(),
{
    let s = x + seq![c] + y;
    if x.len() == 0 {
        assert(s.drop_first() =~= y);
        assert(x =~= Seq::<char>::empty());
        assert(split_ws_raw(s) =~= split_ws_raw(x) + split_ws_raw(y));
    } else {
        let x1 = x.drop_first();
        assert(s.drop_first() =~= x1 + seq![c] + y);
        lemma_split_ws_concat(x1, y, c);
        lemma_split_ws_nonempty(x1);
        lemma_split_ws_nonempty(y);
        assert(s[0] == x[0]);
        if is_ws(x[0]) {
            assert(split_ws_raw(s) =~= split_ws_raw(x) + split_ws_raw(y));
        } else {
            let r = split_ws_raw(x1) + split_ws_raw(y);
            assert(r.update(0, seq![x[0]] + r[0]) =~= split_ws_raw(x1).update(0, seq![x[0]] + split_ws_raw(x1)[0])
                + split_ws_raw(y));
        }
    }
}

proof fn lemma_nonempty_only_concat(a: Seq<Seq<char>>, b: Seq<Seq<char>>)
    ensures
        nonempty_only(a + b) == nonempty_only(a) + nonempty_only(b),
    decreases b.len(),
{
    if b.len() == 0 {
        assert(a + b =~= a);
        assert(nonempty_only(a) + nonempty_only(b) =~= nonempty_only(a));
    } else {
        let d = b.drop_last();
        lemma_nonempty_only_concat(a, d);
        assert((a + b).drop_last() =~= a + d);
        assert((a + b).last() == b.last());
        assert(nonempty_only(a + b) =~= nonempty_only(a) + nonempty_only(b));
    }
}

/// Words joined with single spaces read back as the words, when each is
/// non-empty and holds no white space.
pub proof fn lemma_words_join(ws: Seq<Seq<char>>)
    requires
        forall|i: int| 0 <= i < ws.len() ==> #[trigger] ws[i].len() > 0 && ws_free(ws[i]),
    ensures
        words(join(ws, seq![' '])) == ws,
    decreases ws.len(),
{
    if ws.len() == 0 {
        assert(join(ws, seq![' ']) =~= Seq::<char>::empty());
        let one = seq![Seq::<char>::empty()];
        assert(one.drop_last() =~= Seq::<Seq<char>>::empty());
        assert(nonempty_only(one) == nonempty_only(one.drop_last()));
        assert(nonempty_only(one) =~= ws);
    } else if ws.len() == 1 {
        assert(ws[0].len() > 0 && ws_free(ws[0]));
        lemma_split_ws_free(ws[0]);
        let one = seq![ws[0]];
        assert(one.drop_last() =~= Seq::<Seq<char>>::empty());
        assert(one.last() == ws[0]);
        assert(nonempty_only(one) == nonempty_only(one.drop_last()).push(ws[0]));
        assert(nonempty_only(one) =~= ws);
    } else {
        let d = ws.drop_last();
        assert forall|i: int| 0 <= i < d.len() implies #[trigger] d[i].len() > 0 && ws_free(d[i]) by {
            assert(d[i] == ws[i]);
        }
        lemma_words_join(d);
        let l = ws.last();
        assert(ws[ws.len() - 1].len() > 0 && ws_free(ws[ws.len() - 1]));
        lemma_split_ws_concat(join(d, seq![' ']), l, ' ');
        lemma_split_ws_free(l);
        lemma_nonempty_only_concat(split_ws_raw(join(d, seq![' '])), seq![l]);
        let one = seq![l];
        assert(one.drop_last() =~= Seq::<Seq<char>>::empty());
        assert(one.last() == l);
        assert(nonempty_only(one) == nonempty_only(one.drop_last()).push(l));
        assert(nonempty_only(one) =~= one);
        assert(d + one =~= ws);
    }
}

/// `trim_start(s)` is what is left of `s` after some leading characters,
/// and starts with a character that is not white space.
pub proof fn lemma_trim_start_shape(s: Seq<char>)
    ensures
        trim_start(s).len() <= s.len(),
        trim_start(s) == s.skip(s.len() - trim_start(s).len()),
        trim_start(s).len() > 0 ==> !is_ws(trim_start(s)[0]),
    decreases s.len(),
{
    if s.len() > 0 && is_ws(s[0]) {
        lemma_trim_start_shape(s.drop_first());
        let t = trim_start(s.drop_first());
        assert(s.drop_first().skip(s.drop_first().len() - t.len()) =~= s.skip(s.len() - t.len()));
    } else {
        assert(s.skip(0) =~= s);
    }
}

/// `trim_end(s)` is a prefix of `s` that ends with a character that is not
/// white space.
pub proof fn lemma_trim_end_shape(s: Seq<char>)
    ensures
        trim_end(s).len() <= s.len(),
        trim_end(s) == s.take(trim_end(s).len() as int),
        trim_end(s).len() > 0 ==> !is_ws(trim_end(s).last()),
    decreases s.len(),
{
    if s.len() > 0 && is_ws(s.last()) {
        lemma_trim_end_shape(s.drop_last());
        let t = trim_end(s.drop_last());
        assert(s.drop_last().take(t.len() as int) =~= s.take(t.len() as int));
    } else {
        assert(s.take(s.len() as int) =~= s);
    }
}

/// Trimming is a cut of `s` that leaves nothing to trim, so trimming twice
/// is trimming once.
pub proof fn lemma_trim_shape(s: Seq<char>)
    ensures
        trim(trim(s)) == trim(s),
        exists|lo: int, hi: int| 0 <= lo <= hi <= s.len() && trim(s) == s.subrange(lo, hi),
{
    lemma_trim_start_shape(s);
    let a = trim_start(s);
    lemma_trim_end_shape(a);
    let t = trim_end(a);
    let lo = s.len() - a.len();
    assert(t =~= s.subrange(lo, lo + t.len()));
    if t.len() > 0 {
        assert(t[0] == a[0]);
        lemma_trimmed_by_ends(t);
    } else {
        assert(trim_start(t) =~= t);
        assert(trim_end(t) =~= t);
    }
}

} // verus!
