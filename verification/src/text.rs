//! Text primitives shared by the library: byte-wise string order,
//! character views and small string builders.
use vstd::prelude::*;
use vstd::utf8::*;

verus! {

/// Strict lexicographic order on byte sequences (the order `[u8]` and
/// `str` have in Rust): the first differing byte decides, and a proper
/// prefix sorts first.
pub open spec fn lex_lt(a: Seq<u8>, b: Seq<u8>) -> bool {
    exists|k: int| #[trigger] lex_witness(a, b, k)
}

/// `k` is the length of the common prefix of `a` and `b`, and `a` is
/// smaller than `b` at position `k`.
pub open spec fn lex_witness(a: Seq<u8>, b: Seq<u8>, k: int) -> bool {
    &&& 0 <= k <= a.len()
    &&& k <= b.len()
    &&& forall|i: int| 0 <= i < k ==> a[i] == b[i]
    &&& (k == a.len() && k < b.len()) || (k < a.len() && k < b.len() && a[k] < b[k])
}

/// The order of Rust's `str`/`String`: compare the UTF-8 encodings.
pub open spec fn str_lt(a: Seq<char>, b: Seq<char>) -> bool {
    lex_lt(encode_utf8(a), encode_utf8(b))
}

/// Two equal encodings come from equal strings.
pub proof fn lemma_encode_injective(a: Seq<char>, b: Seq<char>)
    requires
        encode_utf8(a) == encode_utf8(b),
    ensures
        a == b,
{
    encode_utf8_decode_utf8(a);
    encode_utf8_decode_utf8(b);
}

pub proof fn lemma_lex_irreflexive(a: Seq<u8>)
    ensures
        !lex_lt(a, a),
{
    if lex_lt(a, a) {
        let k = choose|k: int| lex_witness(a, a, k);
        assert(lex_witness(a, a, k));
    }
}

pub proof fn lemma_lex_asymmetric(a: Seq<u8>, b: Seq<u8>)
    ensures
        !(lex_lt(a, b) && lex_lt(b, a)),
{
    if lex_lt(a, b) && lex_lt(b, a) {
        let k1 = choose|k: int| lex_witness(a, b, k);
        let k2 = choose|k: int| lex_witness(b, a, k);
        assert(lex_witness(a, b, k1));
        assert(lex_witness(b, a, k2));
        if k1 < k2 {
            assert(a[k1] == b[k1]);
        } else if k2 < k1 {
            assert(a[k2] == b[k2]);
        }
    }
}

pub proof fn lemma_lex_transitive(a: Seq<u8>, b: Seq<u8>, c: Seq<u8>)
    requires
        lex_lt(a, b),
        lex_lt(b, c),
    ensures
        lex_lt(a, c),
{
    let k1 = choose|k: int| lex_witness(a, b, k);
    let k2 = choose|k: int| lex_witness(b, c, k);
    assert(lex_witness(a, b, k1));
    assert(lex_witness(b, c, k2));
    let k = if k1 <= k2 { k1 } else { k2 };
    assert(lex_witness(a, c, k));
}

pub proof fn lemma_lex_total(a: Seq<u8>, b: Seq<u8>)
    requires
        a != b,
    ensures
        lex_lt(a, b) || lex_lt(b, a),
{
    let n = if a.len() <= b.len() { a.len() as int } else { b.len() as int };
    if forall|i: int| 0 <= i < n ==> a[i] == b[i] {
        if a.len() == b.len() {
            assert(a =~= b);
        } else if a.len() < b.len() {
            assert(lex_witness(a, b, n));
        } else {
            assert(lex_witness(b, a, n));
        }
    } else {
        let j = choose|i: int| 0 <= i < n && a[i] != b[i];
        lemma_first_difference(a, b, j);
    }
}

proof fn lemma_first_difference(a: Seq<u8>, b: Seq<u8>, j: int)
    requires
        0 <= j < a.len(),
        j < b.len(),
        a[j] != b[j],
    ensures
        lex_lt(a, b) || lex_lt(b, a),
    decreases j,
{
    if forall|i: int| 0 <= i < j ==> a[i] == b[i] {
        if a[j] < b[j] {
            assert(lex_witness(a, b, j));
        } else {
            assert(lex_witness(b, a, j));
        }
    } else {
        let j2 = choose|i: int| 0 <= i < j && a[i] != b[i];
        lemma_first_difference(a, b, j2);
    }
}

pub proof fn lemma_str_lt_total(a: Seq<char>, b: Seq<char>)
    requires
        a != b,
    ensures
        str_lt(a, b) || str_lt(b, a),
{
    if encode_utf8(a) == encode_utf8(b) {
        lemma_encode_injective(a, b);
    }
    lemma_lex_total(encode_utf8(a), encode_utf8(b));
}

/// Byte-wise comparison of two strings: `true` exactly when `a` sorts
/// strictly before `b`.
pub fn str_less(a: &str, b: &str) -> (r: bool)
    ensures
        r == str_lt(a@, b@),
{
    let x = a.as_bytes();
    let y = b.as_bytes();
    let n = if x.len() <= y.len() { x.len() } else { y.len() };
    let mut i: usize = 0;
    while i < n
        invariant
            x@ == encode_utf8(a@),
            y@ == encode_utf8(b@),
            n <= x@.len(),
            n <= y@.len(),
            n == x@.len() || n == y@.len(),
            i <= n,
            forall|j: int| 0 <= j < i ==> x@[j] == y@[j],
        decreases n - i,
    {
        if x[i] != y[i] {
            let r = x[i] < y[i];
            proof {
                if r {
                    assert(lex_witness(x@, y@, i as int));
                } else {
                    assert(lex_witness(y@, x@, i as int));
                    lemma_lex_asymmetric(x@, y@);
                }
            }
            return r;
        }
        i = i + 1;
    }
    let r = x.len() < y.len();
    proof {
        if r {
            assert(lex_witness(x@, y@, n as int));
        } else if y@.len() < x@.len() {
            assert(lex_witness(y@, x@, n as int));
            lemma_lex_asymmetric(x@, y@);
        } else {
            assert(x@ =~= y@);
            lemma_lex_irreflexive(x@);
        }
    }
    r
}

/// The character views of a sequence of strings.
pub open spec fn views(v: Seq<String>) -> Seq<Seq<char>> {
    v.map_values(|s: String| s@)
}

/// No string occurs twice.
pub open spec fn distinct(v: Seq<Seq<char>>) -> bool {
    forall|i: int, j: int| 0 <= i < v.len() && 0 <= j < v.len() && i != j ==> v[i] != v[j]
}

/// Strictly ascending in the order of `str`.
pub open spec fn strictly_sorted(v: Seq<Seq<char>>) -> bool {
    forall|i: int, j: int| 0 <= i < j < v.len() ==> str_lt(#[trigger] v[i], #[trigger] v[j])
}

/// Position of `s` in `ids`, if any.
pub fn position_of(ids: &Vec<String>, s: &str) -> (r: Option<usize>)
    ensures
        match r {
            Some(i) => i < ids.len() && ids@[i as int]@ == s@,
            None => forall|i: int| 0 <= i < ids.len() ==> ids@[i]@ != s@,
        },
{
    let mut i: usize = 0;
    while i < ids.len()
        invariant
            i <= ids.len(),
            forall|j: int| 0 <= j < i ==> ids@[j]@ != s@,
        decreases ids.len() - i,
    {
        if str_equal(ids[i].as_str(), s) {
            return Some(i);
        }
        i = i + 1;
    }
    None
}

/// Equality of two string slices.
pub fn str_equal(a: &str, b: &str) -> (r: bool)
    ensures
        r == (a@ == b@),
{
    let x = a.as_bytes();
    let y = b.as_bytes();
    if x.len() != y.len() {
        proof {
            if a@ == b@ {
                assert(x@ == y@);
            }
        }
        return false;
    }
    let mut i: usize = 0;
    while i < x.len()
        invariant
            x@ == encode_utf8(a@),
            y@ == encode_utf8(b@),
            x@.len() == y@.len(),
            i <= x@.len(),
            forall|j: int| 0 <= j < i ==> x@[j] == y@[j],
        decreases x@.len() - i,
    {
        if x[i] != y[i] {
            return false;
        }
        i = i + 1;
    }
    proof {
        assert(x@ =~= y@);
        lemma_encode_injective(a@, b@);
    }
    true
}

/// Sorts strings that are pairwise different into ascending `str` order.
pub fn sort_distinct(v: &Vec<String>) -> (r: Vec<String>)
    requires
        distinct(views(v@)),
    ensures
        r.len() == v.len(),
        strictly_sorted(views(r@)),
        forall|x: Seq<char>| views(r@).contains(x) <==> views(v@).contains(x),
{
    let mut out: Vec<String> = Vec::new();
    let mut k: usize = 0;
    while k < v.len()
        invariant
            k <= v.len(),
            distinct(views(v@)),
            out.len() == k,
            strictly_sorted(views(out@)),
            forall|x: Seq<char>| views(out@).contains(x) <==> views(v@).take(k as int).contains(x),
        decreases v.len() - k,
    {
        let x = v[k].clone();
        let ghost xv = x@;
        let ghost before = views(out@);
        assert(views(v@)[k as int] == xv);
        assert(!before.contains(xv)) by {
            if before.contains(xv) {
                let j = choose|j: int| 0 <= j < k && views(v@).take(k as int)[j] == xv;
                assert(views(v@)[j] == views(v@)[k as int]);
            }
        }
        let mut pos: usize = 0;
        while pos < out.len() && str_less(out[pos].as_str(), x.as_str())
            invariant
                pos <= out.len(),
                views(out@) == before,
                x@ == xv,
                forall|i: int| 0 <= i < pos ==> str_lt(#[trigger] before[i], xv),
            decreases out.len() - pos,
        {
            pos = pos + 1;
        }
        proof {
            if pos < out.len() {
                assert(before[pos as int] != xv);
                assert(!str_lt(before[pos as int], xv));
                lemma_str_lt_total(before[pos as int], xv);
            }
        }
        out.insert(pos, x);
        proof {
            let after = views(out@);
            assert(after =~= before.insert(pos as int, xv));
            assert forall|i: int, j: int| 0 <= i < j < after.len() implies str_lt(#[trigger] after[i], #[trigger] after[j]) by {
                if j < pos {
                } else if j == pos {
                    assert(after[i] == before[i]);
                } else if i < pos {
                    assert(after[j] == before[j - 1]);
                    lemma_lex_transitive(encode_utf8(before[i]), encode_utf8(xv), encode_utf8(before[pos as int]));
                    if j - 1 > pos {
                        lemma_lex_transitive(encode_utf8(before[i]), encode_utf8(before[pos as int]), encode_utf8(before[j - 1]));
                    }
                } else if i == pos {
                    assert(after[j] == before[j - 1]);
                    if j - 1 > pos {
                        lemma_lex_transitive(encode_utf8(xv), encode_utf8(before[pos as int]), encode_utf8(before[j - 1]));
                    }
                } else {
                    assert(after[i] == before[i - 1]);
                    assert(after[j] == before[j - 1]);
                }
            }
            assert(views(v@).take(k + 1) =~= views(v@).take(k as int).push(xv));
            assert forall|y: Seq<char>| after.contains(y) <==> views(v@).take(k + 1).contains(y) by {
                if after.contains(y) {
                    let i = choose|i: int| 0 <= i < after.len() && after[i] == y;
                    if i != pos {
                        if i < pos {
                            assert(before[i] == y);
                        } else {
                            assert(before[i - 1] == y);
                        }
                        assert(before.contains(y));
                        assert(views(v@).take(k as int).contains(y));
                        let j = choose|j: int| 0 <= j < k && views(v@).take(k as int)[j] == y;
                        assert(views(v@).take(k + 1)[j] == y);
                    } else {
                        assert(views(v@).take(k + 1)[k as int] == y);
                    }
                }
                if views(v@).take(k + 1).contains(y) {
                    if y == xv {
                        assert(after[pos as int] == y);
                    } else {
                        assert(views(v@).take(k as int).contains(y));
                        assert(before.contains(y));
                        let i = choose|i: int| 0 <= i < before.len() && before[i] == y;
                        if i < pos {
                            assert(after[i] == y);
                        } else {
                            assert(after[i + 1] == y);
                        }
                    }
                }
            }
        }
        k = k + 1;
    }
    assert(views(v@).take(v.len() as int) =~= views(v@));
    out
}

/// Appends one character to a string.
#[verifier::external_body]
pub(crate) fn push_char(s: &mut String, c: char)
    ensures
        final(s)@ == old(s)@.push(c),
{
    s.push(c);
}

/// Appends a string slice to a string.
pub fn push_str(s: &mut String, t: &str)
    ensures
        final(s)@ == old(s)@ + t@,
{
    s.append(t);
}

/// Separator-joined concatenation of character sequences.
pub open spec fn join_with(parts: Seq<Seq<char>>, sep: Seq<char>) -> Seq<char>
    decreases parts.len(),
{
    if parts.len() == 0 {
        Seq::empty()
    } else if parts.len() == 1 {
        parts[0]
    } else {
        join_with(parts.drop_last(), sep) + sep + parts.last()
    }
}

/// Joins strings with a separator, as `[String]::join` does.
pub fn join_strings(parts: &Vec<String>, sep: &str) -> (r: String)
    ensures
        r@ == join_with(views(parts@), sep@),
{
    let mut out = String::new();
    let mut i: usize = 0;
    while i < parts.len()
        invariant
            i <= parts.len(),
            out@ == join_with(views(parts@).take(i as int), sep@),
        decreases parts.len() - i,
    {
        proof {
            let t = views(parts@).take(i + 1);
            assert(t.drop_last() =~= views(parts@).take(i as int));
            assert(t.last() == parts@[i as int]@);
        }
        if i > 0 {
            push_str(&mut out, sep);
        }
        push_str(&mut out, parts[i].as_str());
        proof {
            if i == 0 {
                assert(views(parts@).take(0) =~= Seq::<Seq<char>>::empty());
                assert(out@ =~= parts@[0]@);
            }
        }
        i = i + 1;
    }
    proof {
        assert(views(parts@).take(parts.len() as int) =~= views(parts@));
    }
    out
}

/// The decimal digit character for `d < 10`.
pub open spec fn digit_char(d: nat) -> char {
    ((48 + d) as u8) as char
}

/// Decimal representation of a natural number, without leading zeros.
pub open spec fn decimal(n: nat) -> Seq<char>
    decreases n,
{
    if n < 10 {
        seq![digit_char(n)]
    } else {
        decimal(n / 10).push(digit_char(n % 10))
    }
}

/// Decimal representation of an integer, with a leading `-` when negative.
pub open spec fn signed_decimal(n: int) -> Seq<char> {
    if n < 0 {
        seq!['-'] + decimal((-n) as nat)
    } else {
        decimal(n as nat)
    }
}

fn digit(d: u64) -> (c: char)
    requires
        d < 10,
    ensures
        c == digit_char(d as nat),
{
    let b: u8 = 48u8 + (d as u8);
    b as char
}

/// Decimal text of an unsigned number (what `to_string` prints).
pub fn u64_decimal(n: u64) -> (r: String)
    ensures
        r@ == decimal(n as nat),
{
    let mut rev: Vec<char> = Vec::new();
    let mut m: u64 = n;
    let ghost mut rest: Seq<char> = Seq::empty();
    // rev holds the low digits, least significant first
    loop
        invariant
            decimal(n as nat) == decimal(m as nat) + rest,
            rev@ == rest.reverse(),
        ensures
            m < 10,
            decimal(n as nat) == decimal(m as nat) + rest,
            rev@ == rest.reverse(),
        decreases m,
    {
        if m < 10 {
            break;
        }
        let d = m % 10;
        let c = digit(d);
        proof {
            assert(decimal(m as nat) == decimal((m / 10) as nat).push(c));
            assert(decimal(n as nat) =~= decimal((m / 10) as nat) + (seq![c] + rest));
        }
        rev.push(c);
        proof {
            assert((seq![c] + rest).reverse() =~= rest.reverse().push(c));
            rest = seq![c] + rest;
        }
        m = m / 10;
    }
    let mut out = String::new();
    push_char(&mut out, digit(m));
    proof {
        assert(decimal(m as nat) =~= seq![digit_char(m as nat)]);
    }
    let mut i: usize = rev.len();
    while i > 0
        invariant
            i <= rev.len(),
            rev@ == rest.reverse(),
            out@ + rest.reverse().take(i as int).reverse() == decimal(n as nat),
        decreases i,
    {
        i = i - 1;
        let ghost before = out@;
        push_char(&mut out, rev[i]);
        proof {
            let rr = rest.reverse();
            assert(rr.take(i + 1).reverse() =~= seq![rr[i as int]] + rr.take(i as int).reverse());
            assert(out@ + rr.take(i as int).reverse() =~= before + rr.take(i + 1).reverse());
        }
    }
    proof {
        assert(rest.reverse().take(0).reverse() =~= Seq::<char>::empty());
        assert(out@ =~= out@ + Seq::<char>::empty());
    }
    out
}

/// Decimal text of a signed number (what `to_string` prints).
pub fn i64_decimal(n: i64) -> (r: String)
    ensures
        r@ == signed_decimal(n as int),
{
    if n < 0 {
        let mag: u64 = if n == i64::MIN { 9223372036854775808u64 } else { (-n) as u64 };
        let digits = u64_decimal(mag);
        let mut out = String::new();
        push_char(&mut out, '-');
        push_str(&mut out, digits.as_str());
        proof {
            assert(out@ =~= seq!['-'] + decimal((-n) as nat));
        }
        out
    } else {
        u64_decimal(n as u64)
    }
}

/// The characters of a string slice.
pub fn chars_of(s: &str) -> (r: Vec<char>)
    ensures
        r@ == s@,
{
    let mut out: Vec<char> = Vec::new();
    for c in it: s.chars()
        invariant
            out@ == it.seq().take(it.index() as int),
            it.seq() == s@,
    {
        out.push(c);
    }
    out
}

/// Unicode `White_Space`, the set `char::is_whitespace` tests.
pub open spec fn is_ws(c: char) -> bool {
    let u = c as u32;
    (0x9 <= u && u <= 0xD) || u == 0x20 || u == 0x85 || u == 0xA0 || u == 0x1680
        || (0x2000 <= u && u <= 0x200A) || u == 0x2028 || u == 0x2029 || u == 0x202F
        || u == 0x205F || u == 0x3000
}

/// Whether `c` is Unicode white space.
pub fn is_whitespace(c: char) -> (r: bool)
    ensures
        r == is_ws(c),
{
    let u = c as u32;
    (0x9 <= u && u <= 0xD) || u == 0x20 || u == 0x85 || u == 0xA0 || u == 0x1680
        || (0x2000 <= u && u <= 0x200A) || u == 0x2028 || u == 0x2029 || u == 0x202F
        || u == 0x205F || u == 0x3000
}

/// `s` without its leading white space.
pub open spec fn trim_start(s: Seq<char>) -> Seq<char>
    decreases s.len(),
{
    if s.len() > 0 && is_ws(s[0]) {
        trim_start(s.drop_first())
    } else {
        s
    }
}

/// `s` without its trailing white space.
pub open spec fn trim_end(s: Seq<char>) -> Seq<char>
    decreases s.len(),
{
    if s.len() > 0 && is_ws(s.last()) {
        trim_end(s.drop_last())
    } else {
        s
    }
}

/// `s` without leading and trailing white space (`str::trim`).
pub open spec fn trim(s: Seq<char>) -> Seq<char> {
    trim_end(trim_start(s))
}

/// The leading run of non-space characters of `s`.
pub open spec fn leading_word(s: Seq<char>) -> Seq<char>
    decreases s.len(),
{
    if s.len() > 0 && !is_ws(s[0]) {
        seq![s[0]] + leading_word(s.drop_first())
    } else {
        Seq::empty()
    }
}

/// The first white-space separated word, or empty
/// (`split_whitespace().next().unwrap_or("")`).
pub open spec fn first_word(s: Seq<char>) -> Seq<char> {
    leading_word(trim_start(s))
}

proof fn lemma_trim_start_skip(s: Seq<char>, i: int)
    requires
        0 <= i <= s.len(),
        forall|j: int| 0 <= j < i ==> is_ws(#[trigger] s[j]),
    ensures
        trim_start(s) == trim_start(s.subrange(i, s.len() as int)),
    decreases i,
{
    if i > 0 {
        assert(is_ws(s[0]));
        let t = s.drop_first();
        lemma_trim_start_skip(t, i - 1);
        assert(t.subrange(i - 1, t.len() as int) =~= s.subrange(i, s.len() as int));
    } else {
        assert(s.subrange(0, s.len() as int) =~= s);
    }
}

proof fn lemma_trim_end_skip(s: Seq<char>, e: int)
    requires
        0 <= e <= s.len(),
        forall|j: int| e <= j < s.len() ==> is_ws(#[trigger] s[j]),
    ensures
        trim_end(s) == trim_end(s.subrange(0, e)),
    decreases s.len() - e,
{
    if e < s.len() {
        assert(is_ws(s.last()));
        let t = s.drop_last();
        lemma_trim_end_skip(t, e);
        assert(t.subrange(0, e) =~= s.subrange(0, e));
    } else {
        assert(s.subrange(0, e) =~= s);
    }
}

proof fn lemma_leading_word_prefix(s: Seq<char>, i: int)
    requires
        0 <= i <= s.len(),
        forall|j: int| 0 <= j < i ==> !is_ws(#[trigger] s[j]),
        i == s.len() || is_ws(s[i]),
    ensures
        leading_word(s) == s.subrange(0, i),
    decreases i,
{
    if i > 0 {
        let t = s.drop_first();
        lemma_leading_word_prefix(t, i - 1);
        assert(seq![s[0]] + t.subrange(0, i - 1) =~= s.subrange(0, i));
    } else {
        assert(s.subrange(0, 0) =~= Seq::<char>::empty());
    }
}

/// A string made of the characters `cs[from..to]`.
pub fn string_of(cs: &Vec<char>, from: usize, to: usize) -> (r: String)
    requires
        from <= to <= cs.len(),
    ensures
        r@ == cs@.subrange(from as int, to as int),
{
    let mut out = String::new();
    let mut i = from;
    while i < to
        invariant
            from <= i <= to,
            to <= cs.len(),
            out@ == cs@.subrange(from as int, i as int),
        decreases to - i,
    {
        push_char(&mut out, cs[i]);
        proof {
            assert(cs@.subrange(from as int, i + 1) =~= cs@.subrange(from as int, i as int).push(cs@[i as int]));
        }
        i = i + 1;
    }
    out
}

/// `str::trim`: the string without leading and trailing white space.
pub fn trim_text(s: &str) -> (r: String)
    ensures
        r@ == trim(s@),
{
    let cs = chars_of(s);
    let mut a: usize = 0;
    while a < cs.len() && is_whitespace(cs[a])
        invariant
            a <= cs.len(),
            cs@ == s@,
            forall|j: int| 0 <= j < a ==> is_ws(#[trigger] cs@[j]),
        decreases cs.len() - a,
    {
        a = a + 1;
    }
    proof {
        lemma_trim_start_skip(s@, a as int);
        let t = s@.subrange(a as int, s@.len() as int);
        if t.len() > 0 {
            assert(!is_ws(t[0]));
        }
    }
    let mut e: usize = cs.len();
    while e > a && is_whitespace(cs[e - 1])
        invariant
            a <= e <= cs.len(),
            cs@ == s@,
            forall|j: int| e <= j < cs.len() ==> is_ws(#[trigger] cs@[j]),
        decreases e,
    {
        e = e - 1;
    }
    proof {
        let t = s@.subrange(a as int, s@.len() as int);
        assert forall|j: int| e - a <= j < t.len() implies is_ws(#[trigger] t[j]) by {
            assert(t[j] == s@[a + j]);
        }
        lemma_trim_end_skip(t, e - a);
        let u = t.subrange(0, e - a);
        assert(u =~= s@.subrange(a as int, e as int));
        if u.len() > 0 {
            assert(!is_ws(u.last()));
        } else {
            assert(trim_end(u) == u);
        }
    }
    string_of(&cs, a, e)
}

/// The first white-space separated word of `s`, or the empty string.
pub fn first_word_of(s: &str) -> (r: String)
    ensures
        r@ == first_word(s@),
{
    let cs = chars_of(s);
    let mut a: usize = 0;
    while a < cs.len() && is_whitespace(cs[a])
        invariant
            a <= cs.len(),
            cs@ == s@,
            forall|j: int| 0 <= j < a ==> is_ws(#[trigger] cs@[j]),
        decreases cs.len() - a,
    {
        a = a + 1;
    }
    let mut e: usize = a;
    while e < cs.len() && !is_whitespace(cs[e])
        invariant
            a <= e <= cs.len(),
            cs@ == s@,
            forall|j: int| a <= j < e ==> !is_ws(#[trigger] cs@[j]),
        decreases cs.len() - e,
    {
        e = e + 1;
    }
    proof {
        lemma_trim_start_skip(s@, a as int);
        let t = s@.subrange(a as int, s@.len() as int);
        if t.len() > 0 {
            assert(!is_ws(t[0]));
        }
        assert(trim_start(t) == t);
        assert forall|j: int| 0 <= j < e - a implies !is_ws(#[trigger] t[j]) by {
            assert(t[j] == s@[a + j]);
        }
        if e < cs.len() {
            assert(t[e - a] == s@[e as int]);
        }
        lemma_leading_word_prefix(t, e - a);
        assert(t.subrange(0, e - a) =~= s@.subrange(a as int, e as int));
    }
    string_of(&cs, a, e)
}

/// What `str::to_lowercase` returns for a character sequence.
pub uninterp spec fn lowercase(s: Seq<char>) -> Seq<char>;

/// What `str::to_uppercase` returns for a character sequence.
pub uninterp spec fn uppercase(s: Seq<char>) -> Seq<char>;

/// Trusted: calls `str::to_lowercase`; the result is named `lowercase`
/// of the input (Unicode lower-case mapping, a function of the text alone).
#[verifier::external_body]
pub(crate) fn to_lower(s: &str) -> (r: String)
    ensures
        r@ == lowercase(s@),
{
    s.to_lowercase()
}

/// Trusted: calls `str::to_uppercase`; the result is named `uppercase`
/// of the input (Unicode upper-case mapping, a function of the text alone).
#[verifier::external_body]
pub(crate) fn to_upper(s: &str) -> (r: String)
    ensures
        r@ == uppercase(s@),
{
    s.to_uppercase()
}

/// `needle` occurs in `hay` at position `i`.
pub open spec fn occurs_at(hay: Seq<char>, needle: Seq<char>, i: int) -> bool {
    0 <= i && i + needle.len() <= hay.len() && hay.subrange(i, i + needle.len()) == needle
}

/// `needle` occurs somewhere in `hay` (`str::contains`).
pub open spec fn contains_text(hay: Seq<char>, needle: Seq<char>) -> bool {
    exists|i: int| #[trigger] occurs_at(hay, needle, i)
}

/// `hay` begins with `needle` (`str::starts_with`).
pub open spec fn starts_with_text(hay: Seq<char>, needle: Seq<char>) -> bool {
    occurs_at(hay, needle, 0)
}

/// Whether `needle` matches `hay` at position `i`.
pub fn matches_at(hay: &Vec<char>, needle: &Vec<char>, i: usize) -> (r: bool)
    ensures
        r == occurs_at(hay@, needle@, i as int),
{
    if i > hay.len() || needle.len() > hay.len() - i {
        return false;
    }
    let mut k: usize = 0;
    while k < needle.len()
        invariant
            k <= needle.len(),
            i + needle.len() <= hay.len(),
            forall|j: int| 0 <= j < k ==> hay@[i + j] == needle@[j],
        decreases needle.len() - k,
    {
        if hay[i + k] != needle[k] {
            proof {
                if occurs_at(hay@, needle@, i as int) {
                    assert(hay@.subrange(i as int, i + needle.len())[k as int] == hay@[i + k]);
                }
            }
            return false;
        }
        k = k + 1;
    }
    proof {
        assert(hay@.subrange(i as int, i + needle.len()) =~= needle@);
    }
    true
}

/// `str::contains` on character vectors.
pub fn find_text(hay: &Vec<char>, needle: &Vec<char>) -> (r: Option<usize>)
    ensures
        match r {
            Some(i) => occurs_at(hay@, needle@, i as int)
                && forall|j: int| 0 <= j < i ==> !#[trigger] occurs_at(hay@, needle@, j),
            None => !contains_text(hay@, needle@),
        },
{
    if needle.len() == 0 {
        proof {
            assert(hay@.subrange(0, 0) =~= needle@);
        }
        return Some(0);
    }
    let mut i: usize = 0;
    while i < hay.len()
        invariant
            needle.len() > 0,
            forall|j: int| 0 <= j < i ==> !#[trigger] occurs_at(hay@, needle@, j),
        decreases hay.len() - i,
    {
        if matches_at(hay, needle, i) {
            return Some(i);
        }
        i = i + 1;
    }
    proof {
        assert forall|j: int| !#[trigger] occurs_at(hay@, needle@, j) by {
            if 0 <= j && j < hay.len() {
                assert(j < i);
            }
        }
    }
    None
}

/// Position of the first `c` at or after `from`.
pub open spec fn first_at(s: Seq<char>, c: char, from: int) -> Option<int>
    decreases s.len() - from,
{
    if from < 0 || from >= s.len() {
        None
    } else if s[from] == c {
        Some(from)
    } else {
        first_at(s, c, from + 1)
    }
}

/// Position of the first `c` at or after `from`, if any.
pub fn find_char(cs: &Vec<char>, c: char, from: usize) -> (r: Option<usize>)
    ensures
        match r {
            Some(i) => first_at(cs@, c, from as int) == Some(i as int) && from <= i < cs.len() && cs@[i as int] == c,
            None => first_at(cs@, c, from as int) is None,
        },
{
    let mut i = from;
    while i < cs.len()
        invariant
            from <= i,
            first_at(cs@, c, from as int) == first_at(cs@, c, i as int),
        decreases cs.len() - i,
    {
        if cs[i] == c {
            return Some(i);
        }
        i = i + 1;
    }
    None
}

/// A line without the carriage return that ended it, if any.
pub open spec fn strip_cr(l: Seq<char>) -> Seq<char> {
    if l.len() > 0 && l.last() == '\r' { l.drop_last() } else { l }
}

/// The lines of `s` from position `from` on, as `str::lines` splits them:
/// at `\n` or `\r\n`, with no empty line after a final line ending.
pub open spec fn lines_from(s: Seq<char>, from: int) -> Seq<Seq<char>>
    decreases s.len() - from,
{
    if from < 0 || from >= s.len() {
        Seq::empty()
    } else {
        match first_at(s, '\n', from) {
            Some(e) => if from <= e < s.len() {
                seq![strip_cr(s.subrange(from, e))] + lines_from(s, e + 1)
            } else {
                Seq::empty()
            },
            None => seq![s.subrange(from, s.len() as int)],
        }
    }
}

/// The lines of a text, as `str::lines` gives them.
pub fn split_lines(text: &str) -> (r: Vec<String>)
    ensures
        views(r@) == lines_from(text@, 0),
{
    let cs = chars_of(text);
    let mut out: Vec<String> = Vec::new();
    let mut from: usize = 0;
    while from < cs.len()
        invariant
            cs@ == text@,
            from <= cs.len(),
            lines_from(text@, 0) == views(out@) + lines_from(text@, from as int),
        decreases cs.len() - from,
    {
        let ghost rest = lines_from(text@, from as int);
        match find_char(&cs, '\n', from) {
            Some(e) => {
                let mut end = e;
                if end > from && cs[end - 1] == '\r' {
                    end = end - 1;
                }
                let line = string_of(&cs, from, end);
                proof {
                    assert(line@ == strip_cr(cs@.subrange(from as int, e as int)));
                    assert(rest == seq![line@] + lines_from(text@, e + 1));
                }
                let ghost before = views(out@);
                out.push(line);
                proof {
                    assert(views(out@) =~= before.push(line@));
                    assert(before + rest =~= views(out@) + lines_from(text@, e + 1));
                }
                from = e + 1;
            },
            None => {
                let line = string_of(&cs, from, cs.len());
                let ghost before = views(out@);
                out.push(line);
                proof {
                    assert(views(out@) =~= before.push(line@));
                    assert(rest == seq![line@]);
                    assert(lines_from(text@, cs.len() as int) =~= Seq::<Seq<char>>::empty());
                    assert(before + rest =~= views(out@) + lines_from(text@, cs.len() as int));
                }
                from = cs.len();
            },
        }
    }
    proof {
        assert(views(out@) + lines_from(text@, from as int) =~= views(out@));
    }
    out
}

/// What follows the first white-space separated word of `s`.
pub open spec fn after_first_word(s: Seq<char>) -> Seq<char> {
    let t = trim_start(s);
    t.subrange(leading_word(t).len() as int, t.len() as int)
}

/// The text after the first white-space separated word of `s`.
pub fn rest_after_word(s: &str) -> (r: String)
    ensures
        r@ == after_first_word(s@),
{
    let cs = chars_of(s);
    let mut a: usize = 0;
    while a < cs.len() && is_whitespace(cs[a])
        invariant
            a <= cs.len(),
            cs@ == s@,
            forall|j: int| 0 <= j < a ==> is_ws(#[trigger] cs@[j]),
        decreases cs.len() - a,
    {
        a = a + 1;
    }
    let mut e: usize = a;
    while e < cs.len() && !is_whitespace(cs[e])
        invariant
            a <= e <= cs.len(),
            cs@ == s@,
            forall|j: int| a <= j < e ==> !is_ws(#[trigger] cs@[j]),
        decreases cs.len() - e,
    {
        e = e + 1;
    }
    proof {
        lemma_trim_start_skip(s@, a as int);
        let t = s@.subrange(a as int, s@.len() as int);
        if t.len() > 0 {
            assert(!is_ws(t[0]));
        }
        assert(trim_start(t) == t);
        assert forall|j: int| 0 <= j < e - a implies !is_ws(#[trigger] t[j]) by {
            assert(t[j] == s@[a + j]);
        }
        if e < cs.len() {
            assert(t[e - a] == s@[e as int]);
        }
        lemma_leading_word_prefix(t, e - a);
        assert(t.subrange(e - a, t.len() as int) =~= s@.subrange(e as int, s@.len() as int));
    }
    string_of(&cs, e, cs.len())
}

/// Value of a run of decimal digits.
pub open spec fn digits_value(d: Seq<char>) -> int
    decreases d.len(),
{
    if d.len() == 0 { 0 } else { 10 * digits_value(d.drop_last()) + (d.last() as int - '0' as int) }
}

/// Every character is an ASCII digit.
pub open spec fn all_digits(d: Seq<char>) -> bool {
    forall|i: int| 0 <= i < d.len() ==> '0' <= #[trigger] d[i] <= '9'
}

/// What `str::parse::<u16>` gives: an optional `+`, then one or more
/// ASCII digits whose value fits in 16 bits.
pub open spec fn parse_u16_spec(s: Seq<char>) -> Option<u16> {
    let d = if s.len() > 0 && s[0] == '+' { s.drop_first() } else { s };
    if d.len() > 0 && all_digits(d) && digits_value(d) <= 65535 { Some(digits_value(d) as u16) } else { None }
}

proof fn lemma_digits_value_grows(d: Seq<char>, k: int)
    requires
        all_digits(d),
        0 <= k <= d.len(),
    ensures
        0 <= digits_value(d.take(k)) <= digits_value(d),
    decreases d.len() - k,
{
    if k < d.len() {
        lemma_digits_value_grows(d, k + 1);
        assert(d.take(k + 1).drop_last() =~= d.take(k));
        assert(d.take(k + 1).last() == d[k]);
        lemma_digits_value_nonneg(d.take(k));
    } else {
        assert(d.take(k) =~= d);
        lemma_digits_value_nonneg(d);
    }
}

proof fn lemma_digits_value_nonneg(d: Seq<char>)
    requires
        all_digits(d),
    ensures
        digits_value(d) >= 0,
    decreases d.len(),
{
    if d.len() > 0 {
        assert(all_digits(d.drop_last())) by {
            assert forall|i: int| 0 <= i < d.drop_last().len() implies '0' <= #[trigger] d.drop_last()[i] <= '9' by {
                assert(d.drop_last()[i] == d[i]);
            }
        }
        lemma_digits_value_nonneg(d.drop_last());
        assert('0' <= d[d.len() - 1] <= '9');
    }
}

/// `str::parse::<u16>`.
pub fn parse_u16(s: &str) -> (r: Option<u16>)
    ensures
        r == parse_u16_spec(s@),
{
    let cs = chars_of(s);
    let start: usize = if cs.len() > 0 && cs[0] == '+' { 1 } else { 0 };
    let ghost d = if s@.len() > 0 && s@[0] == '+' { s@.drop_first() } else { s@ };
    proof {
        assert(d =~= cs@.subrange(start as int, cs@.len() as int));
    }
    if start >= cs.len() {
        return None;
    }
    let mut v: u32 = 0;
    let mut i: usize = start;
    while i < cs.len()
        invariant
            start <= i <= cs.len(),
            cs@ == s@,
            d == cs@.subrange(start as int, cs@.len() as int),
            d == (if s@.len() > 0 && s@[0] == '+' { s@.drop_first() } else { s@ }),
            all_digits(d.take(i - start)),
            v == digits_value(d.take(i - start)),
            v <= 65535,
        decreases cs.len() - i,
    {
        let c = cs[i];
        let ghost k = i - start;
        proof {
            assert(d[k] == c);
            assert(d.take(k + 1).drop_last() =~= d.take(k));
            assert(d.take(k + 1).last() == c);
        }
        if !('0' <= c && c <= '9') {
            proof {
                assert(!all_digits(d));
            }
            return None;
        }
        let digit = (c as u32) - ('0' as u32);
        let nv = v * 10 + digit;
        proof {
            assert(all_digits(d.take(k + 1))) by {
                assert forall|j: int| 0 <= j < d.take(k + 1).len() implies '0' <= #[trigger] d.take(k + 1)[j] <= '9' by {
                    if j < k {
                        assert(d.take(k + 1)[j] == d.take(k)[j]);
                    }
                }
            }
        }
        if nv > 65535 {
            proof {
                if all_digits(d) {
                    lemma_digits_value_grows(d, k + 1);
                }
            }
            return None;
        }
        v = nv;
        i = i + 1;
    }
    proof {
        assert(d.take(i - start) =~= d);
    }
    Some(v as u16)
}

/// Position of the last `c` in `s`.
pub open spec fn last_at(s: Seq<char>, c: char) -> Option<int>
    decreases s.len(),
{
    if s.len() == 0 {
        None
    } else if s.last() == c {
        Some(s.len() - 1)
    } else {
        last_at(s.drop_last(), c)
    }
}

/// Position of the last `c` in `cs`, if any.
pub fn rfind_char(cs: &Vec<char>, c: char) -> (r: Option<usize>)
    ensures
        match r {
            Some(i) => last_at(cs@, c) == Some(i as int) && i < cs.len() && cs@[i as int] == c,
            None => last_at(cs@, c) is None,
        },
{
    let mut e: usize = cs.len();
    proof {
        assert(cs@.take(e as int) =~= cs@);
    }
    while e > 0
        invariant
            e <= cs.len(),
            last_at(cs@, c) == last_at(cs@.take(e as int), c),
        decreases e,
    {
        proof {
            assert(cs@.take(e as int).drop_last() =~= cs@.take(e - 1));
            assert(cs@.take(e as int).last() == cs@[e - 1]);
        }
        if cs[e - 1] == c {
            return Some(e - 1);
        }
        e = e - 1;
    }
    proof {
        assert(cs@.take(e as int) =~= Seq::<char>::empty());
    }
    None
}

} // verus!
