//! Character-level helpers shared by the parser, the statistics and the
//! table renderer: display widths, padding, truncation, line counts,
//! trimming and the lexicographic order of strings.
use vstd::prelude::*;

verus! {

/// The characters of `s`, in order.
pub fn chars_of(s: &str) -> (r: Vec<char>)
    ensures
        r@ == s@,
{
    let mut r: Vec<char> = Vec::new();
    for c in it: s.chars()
        invariant
            r@ == it.seq().take(it.index() as int),
            it.seq() == s@,
    {
        r.push(c);
    }
    r
}

/// Appends one character to a string with `String::push`. The contract
/// claims that the string afterwards holds its old characters followed by
/// `c`.
#[verifier::external_body]
pub(crate) fn push_char(s: &mut String, c: char)
    ensures
        final(s)@ == old(s)@.push(c),
{
    s.push(c);
}

/// Appends `cs[from..to]` to `out`.
pub fn push_chars(out: &mut String, cs: &Vec<char>, from: usize, to: usize)
    requires
        from <= to <= cs@.len(),
    ensures
        final(out)@ == old(out)@ + cs@.subrange(from as int, to as int),
{
    let mut i = from;
    while i < to
        invariant
            from <= i <= to <= cs@.len(),
            out@ == old(out)@ + cs@.subrange(from as int, i as int),
        decreases to - i,
    {
        push_char(out, cs[i]);
        assert(cs@.subrange(from as int, i + 1) == cs@.subrange(from as int, i as int).push(cs@[i as int]));
        i = i + 1;
    }
}

/// A string holding exactly the characters `cs[from..to]`.
pub fn string_of(cs: &Vec<char>, from: usize, to: usize) -> (r: String)
    requires
        from <= to <= cs@.len(),
    ensures
        r@ == cs@.subrange(from as int, to as int),
{
    let mut r = String::new();
    push_chars(&mut r, cs, from, to);
    r
}

/// `n` copies of `c`.
pub open spec fn repeat_char(c: char, n: nat) -> Seq<char> {
    Seq::new(n, |_i: int| c)
}

/// Appends `n` copies of `c` to `out`.
pub fn push_repeat(out: &mut String, c: char, n: usize)
    ensures
        final(out)@ == old(out)@ + repeat_char(c, n as nat),
{
    let mut i: usize = 0;
    while i < n
        invariant
            i <= n,
            out@ == old(out)@ + repeat_char(c, i as nat),
        decreases n - i,
    {
        push_char(out, c);
        assert(repeat_char(c, (i + 1) as nat) == repeat_char(c, i as nat).push(c));
        i = i + 1;
    }
}

// ---------------------------------------------------------------------------
// Display width

/// Display columns taken by one character: two beyond ASCII, one within it.
pub open spec fn char_width(c: char) -> nat {
    if (c as u32) > 0x7F { 2 } else { 1 }
}

/// Display columns taken by a string: the sum of its characters' widths.
pub open spec fn spec_display_width(s: Seq<char>) -> nat
    decreases s.len(),
{
    if s.len() == 0 { 0 } else { spec_display_width(s.drop_last()) + char_width(s.last()) }
}

/// The width of a prefix never exceeds the width of the whole string.
pub proof fn lemma_width_prefix(s: Seq<char>, k: int)
    requires
        0 <= k <= s.len(),
    ensures
        spec_display_width(s.take(k)) <= spec_display_width(s),
    decreases s.len(),
{
    if k < s.len() {
        assert(s.drop_last().take(k) == s.take(k));
        lemma_width_prefix(s.drop_last(), k);
    } else {
        assert(s.take(k) == s);
    }
}

/// The width of a concatenation is the sum of the widths.
pub proof fn lemma_width_concat(a: Seq<char>, b: Seq<char>)
    ensures
        spec_display_width(a + b) == spec_display_width(a) + spec_display_width(b),
    decreases b.len(),
{
    if b.len() == 0 {
        assert(a + b == a);
    } else {
        assert((a + b).drop_last() == a + b.drop_last());
        lemma_width_concat(a, b.drop_last());
    }
}

/// Every character takes at least one and at most two columns.
pub proof fn lemma_width_bounds(s: Seq<char>)
    ensures
        s.len() <= spec_display_width(s) <= 2 * s.len(),
    decreases s.len(),
{
    if s.len() > 0 {
        lemma_width_bounds(s.drop_last());
    }
}

/// Display width of `cs[0..k]`.
fn width_of_prefix(cs: &Vec<char>, k: usize) -> (w: usize)
    requires
        k <= cs@.len(),
        spec_display_width(cs@.take(k as int)) <= usize::MAX,
    ensures
        w == spec_display_width(cs@.take(k as int)),
{
    let mut w: usize = 0;
    let mut i: usize = 0;
    while i < k
        invariant
            i <= k <= cs@.len(),
            w == spec_display_width(cs@.take(i as int)),
            spec_display_width(cs@.take(k as int)) <= usize::MAX,
        decreases k - i,
    {
        assert(cs@.take(i + 1).drop_last() == cs@.take(i as int));
        proof {
            assert(cs@.take(k as int).take(i + 1) == cs@.take(i + 1));
            lemma_width_prefix(cs@.take(k as int), i as int + 1);
        }
        if (cs[i] as u32) > 0x7F {
            w = w + 2;
        } else {
            w = w + 1;
        }
        i = i + 1;
    }
    w
}

/// Display width of `s`, counting two columns for every non-ASCII character.
pub fn display_width(s: &str) -> (w: usize)
    requires
        spec_display_width(s@) <= usize::MAX,
    ensures
        w == spec_display_width(s@),
{
    let cs = chars_of(s);
    assert(cs@.take(cs@.len() as int) == cs@);
    width_of_prefix(&cs, cs.len())
}

/// `s` followed by spaces up to `target` display columns; unchanged when it
/// is already that wide.
pub open spec fn spec_pad_to_width(s: Seq<char>, target: nat) -> Seq<char> {
    let w = spec_display_width(s);
    if w >= target { s } else { s + repeat_char(' ', (target - w) as nat) }
}

/// Pads `s` with spaces on the right to `target` display columns.
pub fn pad_to_width(s: &str, target: usize) -> (r: String)
    requires
        spec_display_width(s@) <= usize::MAX,
    ensures
        r@ == spec_pad_to_width(s@, target as nat),
{
    let w = display_width(s);
    let mut r = String::from_str(s);
    if w < target {
        push_repeat(&mut r, ' ', target - w);
    }
    r
}

/// Padding a string leaves it at least `target` columns wide, and exactly
/// that wide when it was narrower.
pub proof fn law_pad_to_width(s: Seq<char>, target: nat)
    ensures
        spec_display_width(spec_pad_to_width(s, target)) == if spec_display_width(s) >= target {
            spec_display_width(s)
        } else {
            target
        },
        spec_pad_to_width(s, target).take(s.len() as int) == s,
{
    let w = spec_display_width(s);
    if w < target {
        lemma_width_concat(s, repeat_char(' ', (target - w) as nat));
        lemma_width_spaces((target - w) as nat);
    }
    assert(spec_pad_to_width(s, target).take(s.len() as int) == s);
}

/// A run of `n` spaces is `n` columns wide.
pub proof fn lemma_width_spaces(n: nat)
    ensures
        spec_display_width(repeat_char(' ', n)) == n,
    decreases n,
{
    if n > 0 {
        assert(repeat_char(' ', n).drop_last() == repeat_char(' ', (n - 1) as nat));
        lemma_width_spaces((n - 1) as nat);
    }
}

// ---------------------------------------------------------------------------
// Truncation

/// The longest prefix of `s` that fits in `max_width` columns, followed by
/// `"..."` when something had to be cut off.
pub open spec fn spec_truncate_display(s: Seq<char>, max_width: int) -> Seq<char>
    decreases s.len(),
{
    if s.len() == 0 {
        s
    } else if char_width(s[0]) > max_width {
        seq!['.', '.', '.']
    } else {
        seq![s[0]] + spec_truncate_display(s.drop_first(), max_width - char_width(s[0]))
    }
}

/// Truncates `s` to fit within `max_width` display columns (CJK = 2,
/// ASCII = 1), marking a cut with `"..."`.
pub fn truncate_display(s: &str, max_width: usize) -> (r: String)
    ensures
        r@ == spec_truncate_display(s@, max_width as int),
{
    let cs = chars_of(s);
    let mut width: usize = 0;
    let mut result = String::new();
    let mut i: usize = 0;
    assert(cs@.take(0) =~= Seq::<char>::empty());
    assert(cs@.skip(0) =~= cs@);
    while i < cs.len()
        invariant
            i <= cs@.len(),
            cs@ == s@,
            width <= max_width,
            result@ == cs@.take(i as int),
            spec_truncate_display(s@, max_width as int) == cs@.take(i as int)
                + spec_truncate_display(cs@.skip(i as int), max_width - width),
        decreases cs.len() - i,
    {
        let c = cs[i];
        let cw: usize = if (c as u32) > 0x7F { 2 } else { 1 };
        assert(cs@.skip(i as int)[0] == c);
        assert(cs@.skip(i as int).drop_first() == cs@.skip(i + 1));
        if cw > max_width - width {
            push_char(&mut result, '.');
            push_char(&mut result, '.');
            push_char(&mut result, '.');
            return result;
        }
        width = width + cw;
        push_char(&mut result, c);
        assert(cs@.take(i + 1) == cs@.take(i as int).push(c));
        assert(cs@.take(i as int) + (seq![c] + spec_truncate_display(cs@.skip(i + 1), max_width - width))
            == cs@.take(i + 1) + spec_truncate_display(cs@.skip(i + 1), max_width - width));
        i = i + 1;
    }
    assert(cs@.take(cs@.len() as int) == cs@);
    assert(cs@.skip(cs@.len() as int).len() == 0);
    result
}

/// A string that fits in `max_width` columns comes back unchanged; otherwise
/// the result is a prefix that fits in `max_width` columns followed by
/// `"..."`.
pub proof fn law_truncate_display(s: Seq<char>, max_width: int)
    requires
        max_width >= 0,
    ensures
        spec_display_width(s) <= max_width ==> spec_truncate_display(s, max_width) == s,
        spec_display_width(s) > max_width ==> {
            let r = spec_truncate_display(s, max_width);
            &&& 3 <= r.len() <= s.len() + 2
            &&& r.skip(r.len() - 3) == seq!['.', '.', '.']
            &&& r.take(r.len() - 3) == s.take(r.len() - 3)
            &&& spec_display_width(r.take(r.len() - 3)) <= max_width
        },
    decreases s.len(),
{
    if s.len() > 0 {
        let t = s.drop_first();
        let c = s[0];
        lemma_width_front(s);
        if char_width(c) <= max_width {
            law_truncate_display(t, max_width - char_width(c));
            let rt = spec_truncate_display(t, max_width - char_width(c));
            let r = spec_truncate_display(s, max_width);
            assert(r == seq![c] + rt);
            if spec_display_width(s) > max_width {
                assert(r.skip(r.len() - 3) == rt.skip(rt.len() - 3));
                assert(r.take(r.len() - 3) == seq![c] + rt.take(rt.len() - 3));
                assert(s.take(r.len() - 3) =~= seq![c] + t.take(rt.len() - 3));
                lemma_width_front(r.take(r.len() - 3));
                assert(r.take(r.len() - 3).drop_first() == rt.take(rt.len() - 3));
            } else {
                assert(s == seq![c] + t);
            }
        } else {
            let r = spec_truncate_display(s, max_width);
            assert(r.take(0) == s.take(0));
            assert(r.skip(0) == r);
        }
    }
}

/// The width of a non-empty string is that of its first character plus that
/// of the rest.
pub proof fn lemma_width_front(s: Seq<char>)
    requires
        s.len() > 0,
    ensures
        spec_display_width(s) == char_width(s[0]) + spec_display_width(s.drop_first()),
{
    assert(s == seq![s[0]] + s.drop_first());
    lemma_width_concat(seq![s[0]], s.drop_first());
    assert(seq![s[0]].drop_last() =~= Seq::<char>::empty());
    assert(spec_display_width(Seq::<char>::empty()) == 0);
    assert(spec_display_width(seq![s[0]]) == char_width(s[0]));
}


// ---------------------------------------------------------------------------
// Line counting

/// Number of occurrences of `c` in `s`.
pub open spec fn count_char(s: Seq<char>, c: char) -> nat
    decreases s.len(),
{
    if s.len() == 0 {
        0
    } else {
        count_char(s.drop_last(), c) + if s.last() == c { 1nat } else { 0nat }
    }
}

/// Number of lines in `s`: none for the empty string, else one more than
/// the number of newline characters.
pub open spec fn spec_count_lines(s: Seq<char>) -> nat {
    if s.len() == 0 { 0 } else { count_char(s, '\n') + 1 }
}

pub proof fn lemma_count_char_le(s: Seq<char>, c: char)
    ensures
        count_char(s, c) <= s.len(),
    decreases s.len(),
{
    if s.len() > 0 {
        lemma_count_char_le(s.drop_last(), c);
    }
}

/// Number of newline characters in `cs`.
pub fn newline_count(cs: &Vec<char>) -> (n: usize)
    ensures
        n == count_char(cs@, '\n'),
{
    let mut n: usize = 0;
    let mut i: usize = 0;
    while i < cs.len()
        invariant
            i <= cs@.len(),
            n == count_char(cs@.take(i as int), '\n'),
        decreases cs.len() - i,
    {
        assert(cs@.take(i + 1).drop_last() == cs@.take(i as int));
        proof { lemma_count_char_le(cs@.take(i as int), '\n'); }
        if cs[i] == '\n' {
            n = n + 1;
        }
        i = i + 1;
    }
    assert(cs@.take(cs@.len() as int) == cs@);
    n
}

/// Number of lines in `s` (0 for the empty string).
pub fn count_lines(s: &str) -> (n: usize)
    requires
        spec_count_lines(s@) <= usize::MAX,
    ensures
        n == spec_count_lines(s@),
{
    let cs = chars_of(s);
    if cs.len() == 0 {
        0
    } else {
        newline_count(&cs) + 1
    }
}

// ---------------------------------------------------------------------------
// Trimming and first lines

/// The characters with the Unicode `White_Space` property, which is what
/// `char::is_whitespace` tests.
pub open spec fn is_white_space(c: char) -> bool {
    let u = c as u32;
    ||| 0x09 <= u <= 0x0D
    ||| u == 0x20
    ||| u == 0x85
    ||| u == 0xA0
    ||| u == 0x1680
    ||| 0x2000 <= u <= 0x200A
    ||| u == 0x2028
    ||| u == 0x2029
    ||| u == 0x202F
    ||| u == 0x205F
    ||| u == 0x3000
}

pub fn white_space(c: char) -> (b: bool)
    ensures
        b == is_white_space(c),
{
    let u = c as u32;
    (0x09 <= u && u <= 0x0D) || u == 0x20 || u == 0x85 || u == 0xA0 || u == 0x1680
        || (0x2000 <= u && u <= 0x200A) || u == 0x2028 || u == 0x2029 || u == 0x202F
        || u == 0x205F || u == 0x3000
}

/// `s` without leading white space.
pub open spec fn trim_start(s: Seq<char>) -> Seq<char>
    decreases s.len(),
{
    if s.len() > 0 && is_white_space(s[0]) { trim_start(s.drop_first()) } else { s }
}

/// `s` without trailing white space.
pub open spec fn trim_end(s: Seq<char>) -> Seq<char>
    decreases s.len(),
{
    if s.len() > 0 && is_white_space(s.last()) { trim_end(s.drop_last()) } else { s }
}

/// `s` without leading and trailing white space (`str::trim`).
pub open spec fn spec_trim(s: Seq<char>) -> Seq<char> {
    trim_end(trim_start(s))
}

proof fn lemma_trim_start_skip(s: Seq<char>, i: int)
    requires
        0 <= i <= s.len(),
        forall|j: int| 0 <= j < i ==> is_white_space(#[trigger] s[j]),
    ensures
        trim_start(s) == trim_start(s.skip(i)),
    decreases i,
{
    if i > 0 {
        assert(s.skip(1) == s.drop_first());
        lemma_trim_start_skip(s.drop_first(), i - 1);
        assert(s.drop_first().skip(i - 1) == s.skip(i));
    } else {
        assert(s.skip(0) == s);
    }
}

proof fn lemma_trim_end_take(s: Seq<char>, k: int)
    requires
        0 <= k <= s.len(),
        forall|j: int| k <= j < s.len() ==> is_white_space(#[trigger] s[j]),
    ensures
        trim_end(s) == trim_end(s.take(k)),
    decreases s.len() - k,
{
    if k < s.len() {
        assert(s.drop_last().take(k) == s.take(k));
        lemma_trim_end_take(s.drop_last(), k);
    } else {
        assert(s.take(k) == s);
    }
}

/// The characters of `s` without leading and trailing white space.
pub fn trim_chars(cs: &Vec<char>) -> (r: Vec<char>)
    ensures
        r@ == spec_trim(cs@),
{
    let mut a: usize = 0;
    while a < cs.len() && white_space(cs[a])
        invariant
            a <= cs@.len(),
            forall|j: int| 0 <= j < a ==> is_white_space(#[trigger] cs@[j]),
        decreases cs.len() - a,
    {
        a = a + 1;
    }
    proof { lemma_trim_start_skip(cs@, a as int); }
    let ghost rest = cs@.skip(a as int);
    assert(trim_start(rest) == rest);
    let mut b: usize = cs.len();
    while b > a && white_space(cs[b - 1])
        invariant
            a <= b <= cs@.len(),
            forall|j: int| b <= j < cs@.len() ==> is_white_space(#[trigger] cs@[j]),
        decreases b,
    {
        b = b - 1;
    }
    proof {
        lemma_trim_end_take(rest, b - a);
        assert(rest.take(b - a) == cs@.subrange(a as int, b as int));
        let m = cs@.subrange(a as int, b as int);
        if m.len() > 0 {
            assert(m.last() == cs@[b - 1]);
        }
        assert(trim_end(m) == m);
    }
    let mut r: Vec<char> = Vec::new();
    let mut i = a;
    while i < b
        invariant
            a <= i <= b <= cs@.len(),
            r@ == cs@.subrange(a as int, i as int),
        decreases b - i,
    {
        r.push(cs[i]);
        assert(cs@.subrange(a as int, i + 1) == cs@.subrange(a as int, i as int).push(cs@[i as int]));
        i = i + 1;
    }
    r
}

/// The characters of `s` before its first newline (all of `s` if it has
/// none).
pub open spec fn before_newline(s: Seq<char>) -> Seq<char>
    decreases s.len(),
{
    if s.len() == 0 {
        s
    } else if s[0] == '\n' {
        Seq::empty()
    } else {
        seq![s[0]] + before_newline(s.drop_first())
    }
}

/// The first item that `str::lines` yields for a non-empty `s`: the text
/// before the first `'\n'`, without a `'\r'` that ends it.
pub open spec fn spec_first_line(s: Seq<char>) -> Seq<char> {
    if s.contains('\n') {
        let l = before_newline(s);
        if l.len() > 0 && l.last() == '\r' { l.drop_last() } else { l }
    } else {
        s
    }
}

proof fn lemma_before_newline(s: Seq<char>, i: int)
    requires
        0 <= i <= s.len(),
        forall|j: int| 0 <= j < i ==> #[trigger] s[j] != '\n',
        i == s.len() || s[i] == '\n',
    ensures
        before_newline(s) == s.take(i),
        s.contains('\n') <==> i < s.len(),
    decreases i,
{
    if i > 0 {
        lemma_before_newline(s.drop_first(), i - 1);
        assert(s.take(i) == seq![s[0]] + s.drop_first().take(i - 1));
        if s.drop_first().contains('\n') {
            let k = choose|k: int| 0 <= k < s.drop_first().len() && s.drop_first()[k] == '\n';
            assert(s[k + 1] == '\n');
        }
        if s.contains('\n') {
            let k = choose|k: int| 0 <= k < s.len() && s[k] == '\n';
            assert(k > 0);
            assert(s.drop_first()[k - 1] == '\n');
        }
    } else {
        assert(s.take(0) =~= Seq::<char>::empty());
        if i < s.len() {
            assert(s[0] == '\n');
        }
    }
}

/// The first line of the characters `cs`, as `str::lines` yields it.
pub fn first_line_chars(cs: &Vec<char>) -> (r: Vec<char>)
    ensures
        r@ == spec_first_line(cs@),
{
    let mut i: usize = 0;
    while i < cs.len() && cs[i] != '\n'
        invariant
            i <= cs@.len(),
            forall|j: int| 0 <= j < i ==> #[trigger] cs@[j] != '\n',
        decreases cs.len() - i,
    {
        i = i + 1;
    }
    proof { lemma_before_newline(cs@, i as int); }
    let mut end = i;
    if i < cs.len() && i > 0 && cs[i - 1] == '\r' {
        end = i - 1;
    }
    let mut r: Vec<char> = Vec::new();
    let mut k: usize = 0;
    while k < end
        invariant
            k <= end <= cs@.len(),
            r@ == cs@.take(k as int),
        decreases end - k,
    {
        r.push(cs[k]);
        assert(cs@.take(k + 1) == cs@.take(k as int).push(cs@[k as int]));
        k = k + 1;
    }
    proof {
        if i < cs@.len() {
            let l = cs@.take(i as int);
            if l.len() > 0 && l.last() == '\r' {
                assert(l.drop_last() == cs@.take(end as int));
            }
        } else {
            assert(cs@.take(i as int) == cs@);
        }
    }
    r
}

// ---------------------------------------------------------------------------
// Lexicographic order

/// `a` comes strictly before `b` in the lexicographic order of their
/// characters, which is the order of `str` (UTF-8 byte order agrees with
/// code point order).
pub open spec fn seq_less(a: Seq<char>, b: Seq<char>) -> bool
    decreases a.len(),
{
    if a.len() == 0 {
        b.len() > 0
    } else if b.len() == 0 {
        false
    } else if a[0] != b[0] {
        a[0] < b[0]
    } else {
        seq_less(a.drop_first(), b.drop_first())
    }
}

/// No string comes before itself.
pub proof fn lemma_less_irreflexive(a: Seq<char>)
    ensures
        !seq_less(a, a),
    decreases a.len(),
{
    if a.len() > 0 {
        lemma_less_irreflexive(a.drop_first());
    }
}

/// Of two different strings, one comes before the other, and not both ways.
pub proof fn lemma_less_total(a: Seq<char>, b: Seq<char>)
    ensures
        a != b ==> (seq_less(a, b) || seq_less(b, a)),
        !(seq_less(a, b) && seq_less(b, a)),
    decreases a.len(),
{
    if a.len() > 0 && b.len() > 0 {
        lemma_less_total(a.drop_first(), b.drop_first());
        if a[0] == b[0] && a != b {
            assert(a == seq![a[0]] + a.drop_first());
            assert(b == seq![b[0]] + b.drop_first());
        }
    } else if a.len() == 0 && b.len() == 0 {
        assert(a == b);
    }
}

/// The order is transitive.
pub proof fn lemma_less_transitive(a: Seq<char>, b: Seq<char>, c: Seq<char>)
    requires
        seq_less(a, b),
        seq_less(b, c),
    ensures
        seq_less(a, c),
    decreases a.len(),
{
    if a.len() > 0 && b.len() > 0 && c.len() > 0 {
        if a[0] == b[0] && b[0] == c[0] {
            lemma_less_transitive(a.drop_first(), b.drop_first(), c.drop_first());
        }
    }
}

/// Whether `a` comes strictly before `b`.
pub fn chars_less(a: &Vec<char>, b: &Vec<char>) -> (r: bool)
    ensures
        r == seq_less(a@, b@),
{
    let mut i: usize = 0;
    assert(a@.skip(0) == a@);
    assert(b@.skip(0) == b@);
    while i < a.len() && i < b.len() && a[i] == b[i]
        invariant
            i <= a@.len(),
            i <= b@.len(),
            seq_less(a@, b@) == seq_less(a@.skip(i as int), b@.skip(i as int)),
        decreases a.len() - i,
    {
        assert(a@.skip(i as int).drop_first() == a@.skip(i + 1));
        assert(b@.skip(i as int).drop_first() == b@.skip(i + 1));
        i = i + 1;
    }
    if i == a.len() {
        i < b.len()
    } else if i == b.len() {
        false
    } else {
        a[i] < b[i]
    }
}

/// Whether string `a` comes strictly before string `b`.
pub fn str_less(a: &str, b: &str) -> (r: bool)
    ensures
        r == seq_less(a@, b@),
{
    let ca = chars_of(a);
    let cb = chars_of(b);
    chars_less(&ca, &cb)
}

// ---------------------------------------------------------------------------
// Substrings

/// Whether two strings hold the same characters.
pub fn str_eq(a: &str, b: &str) -> (r: bool)
    ensures
        r == (a@ == b@),
{
    let ca = chars_of(a);
    let cb = chars_of(b);
    if ca.len() != cb.len() {
        return false;
    }
    let mut i: usize = 0;
    while i < ca.len()
        invariant
            i <= ca@.len(),
            ca@ == a@,
            cb@ == b@,
            ca@.len() == cb@.len(),
            forall|k: int| 0 <= k < i ==> ca@[k] == cb@[k],
        decreases ca.len() - i,
    {
        if ca[i] != cb[i] {
            assert(ca@[i as int] != cb@[i as int]);
            return false;
        }
        i = i + 1;
    }
    assert(ca@ =~= cb@);
    true
}

/// `pat` occurs in `s` at some position.
pub open spec fn has_substring(s: Seq<char>, pat: Seq<char>) -> bool {
    exists|i: int| 0 <= i <= s.len() - pat.len() && #[trigger] s.subrange(i, i + pat.len()) == pat
}

/// Whether `pat` occurs in `s` at position `at`.
fn occurs_at(s: &Vec<char>, pat: &Vec<char>, at: usize) -> (r: bool)
    requires
        at + pat@.len() <= s@.len(),
    ensures
        r == (s@.subrange(at as int, at + pat@.len()) == pat@),
{
    let mut j: usize = 0;
    while j < pat.len()
        invariant
            j <= pat@.len(),
            at + pat@.len() <= s@.len(),
            forall|k: int| 0 <= k < j ==> s@[at + k] == pat@[k],
        decreases pat.len() - j,
    {
        assert(at + j < s.len());
        if s[at + j] != pat[j] {
            assert(s@.subrange(at as int, at + pat@.len())[j as int] != pat@[j as int]);
            return false;
        }
        j = j + 1;
    }
    assert(s@.subrange(at as int, at + pat@.len()) =~= pat@);
    true
}

/// Whether `pat` occurs in `s` (`str::contains`).
pub fn str_contains(s: &str, pat: &str) -> (r: bool)
    ensures
        r == has_substring(s@, pat@),
{
    let cs = chars_of(s);
    let cp = chars_of(pat);
    if cp.len() > cs.len() {
        return false;
    }
    if cp.len() == 0 {
        assert(s@.subrange(0int, 0int + pat@.len()) =~= pat@);
        return true;
    }
    let last = cs.len() - cp.len();
    let mut i: usize = 0;
    while i <= last
        invariant
            last + cp@.len() == cs@.len(),
            cs@ == s@,
            cp@ == pat@,
            i <= last + 1,
            last < cs.len(),
            cp@.len() > 0,
            forall|k: int| 0 <= k < i ==> #[trigger] cs@.subrange(k, k + cp@.len()) != cp@,
        decreases last + 1 - i,
    {
        if occurs_at(&cs, &cp, i) {
            return true;
        }
        i = i + 1;
    }
    assert(forall|k: int| 0 <= k <= last ==> #[trigger] cs@.subrange(k, k + cp@.len()) != cp@);
    false
}


// ---------------------------------------------------------------------------
// Laws of trimming and line counting

proof fn lemma_trim_start(s: Seq<char>)
    ensures
        trim_start(s).len() > 0 ==> !is_white_space(trim_start(s)[0]),
        exists|a: int| 0 <= a <= s.len() && trim_start(s) == #[trigger] s.skip(a),
    decreases s.len(),
{
    if s.len() > 0 && is_white_space(s[0]) {
        lemma_trim_start(s.drop_first());
        let a = choose|a: int| 0 <= a <= s.drop_first().len() && trim_start(s.drop_first()) == #[trigger] s.drop_first().skip(a);
        assert(s.drop_first().skip(a) == s.skip(a + 1));
    } else {
        assert(s.skip(0) == s);
    }
}

proof fn lemma_trim_end(s: Seq<char>)
    ensures
        trim_end(s).len() > 0 ==> !is_white_space(trim_end(s).last()),
        exists|b: int| 0 <= b <= s.len() && trim_end(s) == #[trigger] s.take(b),
    decreases s.len(),
{
    if s.len() > 0 && is_white_space(s.last()) {
        lemma_trim_end(s.drop_last());
        let b = choose|b: int| 0 <= b <= s.drop_last().len() && trim_end(s.drop_last()) == #[trigger] s.drop_last().take(b);
        assert(s.drop_last().take(b) == s.take(b));
    } else {
        assert(s.take(s.len() as int) == s);
    }
}

/// Trimming leaves a stretch of the text that neither starts nor ends with
/// white space.
pub proof fn law_trim(s: Seq<char>)
    ensures
        spec_trim(s).len() > 0 ==> !is_white_space(spec_trim(s)[0]) && !is_white_space(spec_trim(s).last()),
        exists|a: int, b: int| 0 <= a <= b <= s.len() && spec_trim(s) == #[trigger] s.subrange(a, b),
{
    lemma_trim_start(s);
    let a = choose|a: int| 0 <= a <= s.len() && trim_start(s) == #[trigger] s.skip(a);
    let t = trim_start(s);
    lemma_trim_end(t);
    let b = choose|b: int| 0 <= b <= t.len() && trim_end(t) == #[trigger] t.take(b);
    assert(t.take(b) == s.subrange(a, a + b));
    if spec_trim(s).len() > 0 {
        assert(spec_trim(s)[0] == t[0]);
    }
}

proof fn lemma_count_char_concat(a: Seq<char>, b: Seq<char>, c: char)
    ensures
        count_char(a + b, c) == count_char(a, c) + count_char(b, c),
    decreases b.len(),
{
    if b.len() == 0 {
        assert(a + b == a);
    } else {
        assert((a + b).drop_last() == a + b.drop_last());
        lemma_count_char_concat(a, b.drop_last(), c);
    }
}

/// Two non-empty texts joined by a newline have as many lines as both
/// together; a text ending in a newline has one line more than without it.
pub proof fn law_count_lines(a: Seq<char>, b: Seq<char>)
    ensures
        a.len() > 0 && b.len() > 0 ==> spec_count_lines(a + seq!['\n'] + b) == spec_count_lines(a) + spec_count_lines(b),
        a.len() > 0 ==> spec_count_lines(a.push('\n')) == spec_count_lines(a) + 1,
{
    lemma_count_char_concat(a, seq!['\n'], '\n');
    lemma_count_char_concat(a + seq!['\n'], b, '\n');
    let nl = seq!['\n'];
    assert(nl.drop_last() =~= Seq::<char>::empty());
    assert(nl.last() == '\n');
    assert(count_char(Seq::<char>::empty(), '\n') == 0);
    assert(count_char(nl, '\n') == 1);
    assert(a.push('\n') == a + seq!['\n']);
}

} // verus!
