//! Text primitives over sequences of characters.
use vstd::prelude::*;
use vstd::string::{StrSliceExecFns, StringExecFns};

verus! {

/// `String::push`: appends one character at the end of the string.
pub assume_specification[ String::push ](s: &mut String, ch: char)
    ensures
        final(s)@ == old(s)@.push(ch),
;

/// The characters with the Unicode property `White_Space`.
pub open spec fn white(c: char) -> bool {
    let n = c as int;
    ||| 0x9 <= n <= 0xd
    ||| n == 0x20
    ||| n == 0x85
    ||| n == 0xa0
    ||| n == 0x1680
    ||| 0x2000 <= n <= 0x200a
    ||| n == 0x2028
    ||| n == 0x2029
    ||| n == 0x202f
    ||| n == 0x205f
    ||| n == 0x3000
}

/// `s` without its leading white space.
pub open spec fn trimmed_start(s: Seq<char>) -> Seq<char>
    decreases s.len(),
{
    if s.len() > 0 && white(s[0]) {
        trimmed_start(s.drop_first())
    } else {
        s
    }
}

/// `s` without its trailing white space.
pub open spec fn trimmed_end(s: Seq<char>) -> Seq<char>
    decreases s.len(),
{
    if s.len() > 0 && white(s.last()) {
        trimmed_end(s.drop_last())
    } else {
        s
    }
}

/// `s` without white space at either end.
pub open spec fn trimmed(s: Seq<char>) -> Seq<char> {
    trimmed_end(trimmed_start(s))
}

/// `c` with an ASCII capital turned into its small letter.
pub open spec fn lower_char(c: char) -> char {
    if 'A' <= c <= 'Z' {
        ((c as u8) + 32) as char
    } else {
        c
    }
}

/// `s` with every ASCII capital turned into its small letter.
pub open spec fn lower(s: Seq<char>) -> Seq<char> {
    Seq::new(s.len(), |i: int| lower_char(s[i]))
}

/// `s` without one trailing dot, if it has one.
pub open spec fn without_dot(s: Seq<char>) -> Seq<char> {
    if s.len() > 0 && s.last() == '.' {
        s.drop_last()
    } else {
        s
    }
}

/// `s` ends with `tail`.
pub open spec fn has_suffix(s: Seq<char>, tail: Seq<char>) -> bool {
    tail.len() <= s.len() && s.subrange(s.len() - tail.len(), s.len() as int) == tail
}

/// `part` stands somewhere in `s`.
pub open spec fn has_part(s: Seq<char>, part: Seq<char>) -> bool {
    exists|i: int| has_part_at(s, part, i)
}

/// `part` stands in `s` at position `i`.
pub open spec fn has_part_at(s: Seq<char>, part: Seq<char>, i: int) -> bool {
    0 <= i && i + part.len() <= s.len() && s.subrange(i, i + part.len()) == part
}

/// `a` comes before `b` in the lexicographic order of code points.
pub open spec fn text_before(a: Seq<char>, b: Seq<char>) -> bool
    decreases a.len(),
{
    if b.len() == 0 {
        false
    } else if a.len() == 0 {
        true
    } else if a[0] == b[0] {
        text_before(a.drop_first(), b.drop_first())
    } else {
        a[0] < b[0]
    }
}

/// The pieces of `s` between the occurrences of `sep`.
pub open spec fn pieces(s: Seq<char>, sep: char) -> Seq<Seq<char>>
    decreases s.len(),
{
    if s.len() == 0 {
        seq![Seq::empty()]
    } else {
        let front = pieces(s.drop_last(), sep);
        if s.last() == sep {
            front.push(Seq::empty())
        } else {
            front.drop_last().push(front.last().push(s.last()))
        }
    }
}

/// The canonical form of a domain name: trimmed, without one trailing dot, in small letters.
pub open spec fn normalized(s: Seq<char>) -> Seq<char> {
    lower(without_dot(trimmed(s)))
}

/// `name` is `zone` itself or a name below it.
pub open spec fn under(name: Seq<char>, zone: Seq<char>) -> bool {
    name == zone || has_suffix(name, seq!['.'] + zone)
}

/// The characters of `s`.
pub fn chars_of(s: &str) -> (r: Vec<char>)
    ensures
        r@ == s@,
{
    let mut r: Vec<char> = Vec::new();
    for c in it: s.chars()
        invariant
            r@ == it.seq().take(it.index() as int),
            it.seq() == s@,
    {
        r.push(c);
    }
    assert(s@.take(s@.len() as int) == s@);
    r
}

/// Whether `a` and `b` hold the same characters.
pub fn same_text(a: &str, b: &str) -> (r: bool)
    ensures
        r == (a@ == b@),
{
    let x = chars_of(a);
    let y = chars_of(b);
    if x.len() != y.len() {
        return false;
    }
    for i in 0..x.len()
        invariant
            x@ == a@,
            y@ == b@,
            x@.len() == y@.len(),
            forall|j: int| 0 <= j < i ==> x@[j] == y@[j],
    {
        if x[i] != y[i] {
            return false;
        }
    }
    assert(x@ == y@);
    true
}

/// Whether `c` has the Unicode property `White_Space`.
pub fn is_white(c: char) -> (r: bool)
    ensures
        r == white(c),
{
    let n: u32 = c as u32;
    (0x9 <= n && n <= 0xd) || n == 0x20 || n == 0x85 || n == 0xa0 || n == 0x1680 || (0x2000 <= n
        && n <= 0x200a) || n == 0x2028 || n == 0x2029 || n == 0x202f || n == 0x205f || n == 0x3000
}

/// `s` without white space at either end.
pub fn trim(s: &str) -> (r: &str)
    ensures
        r@ == trimmed(s@),
{
    let cs = chars_of(s);
    let n: usize = cs.len();
    let mut a: usize = 0;
    assert(s@.subrange(0, n as int) == s@);
    while a < n && is_white(cs[a])
        invariant
            a <= n,
            n == cs@.len(),
            cs@ == s@,
            trimmed_start(s@.subrange(a as int, n as int)) == trimmed_start(s@),
        decreases n - a,
    {
        assert(s@.subrange(a as int, n as int).drop_first() == s@.subrange(a + 1, n as int));
        a = a + 1;
    }
    let ghost rest = s@.subrange(a as int, n as int);
    assert(trimmed_start(s@) == rest);
    let mut b: usize = n;
    while a < b && is_white(cs[b - 1])
        invariant
            a <= b <= n,
            n == cs@.len(),
            cs@ == s@,
            rest == s@.subrange(a as int, n as int),
            trimmed_end(s@.subrange(a as int, b as int)) == trimmed_end(rest),
        decreases b,
    {
        assert(s@.subrange(a as int, b as int).drop_last() == s@.subrange(a as int, b - 1));
        b = b - 1;
    }
    s.substring_char(a, b)
}

/// `s` with every ASCII capital turned into its small letter.
pub fn to_lower(s: &str) -> (r: String)
    ensures
        r@ == lower(s@),
{
    let cs = chars_of(s);
    let mut r = String::new();
    for i in 0..cs.len()
        invariant
            cs@ == s@,
            r@ == lower(s@).take(i as int),
    {
        let c = cs[i];
        let l = if 'A' <= c && c <= 'Z' {
            ((c as u8) + 32) as char
        } else {
            c
        };
        r.push(l);
        assert(lower(s@).take(i + 1) == lower(s@).take(i as int).push(l));
    }
    assert(lower(s@).take(s@.len() as int) == lower(s@));
    r
}

/// `s` without one trailing dot, if it has one.
pub fn strip_dot(s: &str) -> (r: &str)
    ensures
        r@ == without_dot(s@),
{
    let n = s.unicode_len();
    if n > 0 && s.get_char(n - 1) == '.' {
        s.substring_char(0, n - 1)
    } else {
        s
    }
}

/// Whether `s` ends with `tail`.
pub fn ends_with(s: &str, tail: &str) -> (r: bool)
    ensures
        r == has_suffix(s@, tail@),
{
    let n = s.unicode_len();
    let m = tail.unicode_len();
    m <= n && same_text(s.substring_char(n - m, n), tail)
}

/// Whether `part` stands somewhere in `s`.
pub fn contains(s: &str, part: &str) -> (r: bool)
    ensures
        r == has_part(s@, part@),
{
    let x = chars_of(s);
    let y = chars_of(part);
    let n: usize = x.len();
    let m: usize = y.len();
    if m > n {
        return false;
    }
    let mut i: usize = 0;
    loop
        invariant
            x@ == s@,
            y@ == part@,
            n == x@.len(),
            m == y@.len(),
            i + m <= n,
            forall|k: int| 0 <= k < i ==> !has_part_at(s@, part@, k),
        decreases n - i,
    {
        let mut j: usize = 0;
        while j < m && x[i + j] == y[j]
            invariant
                x@ == s@,
                y@ == part@,
                n == x@.len(),
                m == y@.len(),
                i + m <= n,
                j <= m,
                forall|k: int| 0 <= k < j ==> x@[i + k] == y@[k],
            decreases m - j,
        {
            j = j + 1;
        }
        if j == m {
            assert(s@.subrange(i as int, i + m) == part@);
            assert(has_part_at(s@, part@, i as int));
            return true;
        }
        assert(!has_part_at(s@, part@, i as int)) by {
            assert(s@.subrange(i as int, i + m)[j as int] == x@[i + j]);
        }
        if i == n - m {
            return false;
        }
        i = i + 1;
    }
}

/// Whether `a` comes before `b` in the lexicographic order of code points.
pub fn is_before(a: &str, b: &str) -> (r: bool)
    ensures
        r == text_before(a@, b@),
{
    let x = chars_of(a);
    let y = chars_of(b);
    let mut i: usize = 0;
    assert(a@.skip(0) == a@);
    assert(b@.skip(0) == b@);
    while i < x.len() && i < y.len() && x[i] == y[i]
        invariant
            x@ == a@,
            y@ == b@,
            i <= x@.len(),
            i <= y@.len(),
            text_before(a@.skip(i as int), b@.skip(i as int)) == text_before(a@, b@),
        decreases x@.len() - i,
    {
        assert(a@.skip(i as int).drop_first() == a@.skip(i + 1));
        assert(b@.skip(i as int).drop_first() == b@.skip(i + 1));
        i = i + 1;
    }
    if i >= y.len() {
        false
    } else if i >= x.len() {
        true
    } else {
        x[i] < y[i]
    }
}

/// No text comes before itself.
pub proof fn before_irreflexive(a: Seq<char>)
    ensures
        !text_before(a, a),
    decreases a.len(),
{
    if a.len() > 0 {
        before_irreflexive(a.drop_first());
    }
}

/// The order of texts is transitive.
pub proof fn before_transitive(a: Seq<char>, b: Seq<char>, c: Seq<char>)
    requires
        text_before(a, b),
        text_before(b, c),
    ensures
        text_before(a, c),
    decreases a.len(),
{
    if a.len() > 0 && b.len() > 0 && c.len() > 0 && a[0] == b[0] && b[0] == c[0] {
        before_transitive(a.drop_first(), b.drop_first(), c.drop_first());
    }
}

/// Of two different texts one comes before the other.
pub proof fn before_total(a: Seq<char>, b: Seq<char>)
    ensures
        a == b || text_before(a, b) || text_before(b, a),
    decreases a.len(),
{
    if a.len() > 0 && b.len() > 0 {
        if a[0] == b[0] {
            before_total(a.drop_first(), b.drop_first());
            if a.drop_first() == b.drop_first() {
                assert(a =~= seq![a[0]] + a.drop_first());
                assert(b =~= seq![b[0]] + b.drop_first());
            }
        }
    } else if a.len() == 0 && b.len() == 0 {
        assert(a =~= b);
    }
}

/// `texts` stand in strictly ascending order.
pub open spec fn ascending(texts: Seq<Seq<char>>) -> bool {
    forall|i: int, j: int|
        0 <= i < j < texts.len() ==> text_before(#[trigger] texts[i], #[trigger] texts[j])
}

/// Puts `s` into the ascending `texts`, unless it is there.
pub fn insert_ascending(texts: &mut Vec<String>, s: String)
    requires
        ascending(old(texts).deep_view()),
    ensures
        ascending(final(texts).deep_view()),
        forall|t: Seq<char>| #[trigger]
            final(texts).deep_view().contains(t) <==> old(texts).deep_view().contains(t) || t
                == s@,
{
    let ghost before = texts.deep_view();
    let ghost sv = s@;
    let mut p: usize = 0;
    while p < texts.len() && is_before(&texts[p], &s)
        invariant
            p <= texts@.len(),
            before == texts.deep_view(),
            ascending(before),
            sv == s@,
            forall|i: int| 0 <= i < p ==> text_before(#[trigger] before[i], sv),
        decreases texts@.len() - p,
    {
        p = p + 1;
    }
    if p < texts.len() && same_text(&texts[p], &s) {
        assert(before[p as int] == sv);
        return;
    }
    proof {
        assert forall|i: int| p <= i < before.len() implies text_before(sv, #[trigger] before[i]) by {
            before_total(before[p as int], sv);
            if i > p {
                before_transitive(sv, before[p as int], before[i]);
            }
        }
    }
    texts.insert(p, s);
    let ghost after = texts.deep_view();
    assert(after =~= before.insert(p as int, sv));
    proof {
        assert forall|t: Seq<char>| #[trigger]
            after.contains(t) <==> before.contains(t) || t == sv by {
            if before.contains(t) {
                let i = choose|i: int| 0 <= i < before.len() && before[i] == t;
                assert(after[if i < p { i } else { i + 1 }] == t);
            }
            if t == sv {
                assert(after[p as int] == t);
            }
            if after.contains(t) {
                let i = choose|i: int| 0 <= i < after.len() && after[i] == t;
                if i != p {
                    assert(before[if i < p { i } else { i - 1 }] == t);
                }
            }
        }
    }
}

/// The pieces of `s` between the occurrences of `sep`.
pub fn split(s: &str, sep: char) -> (r: Vec<String>)
    ensures
        r.deep_view() == pieces(s@, sep),
{
    let cs = chars_of(s);
    let mut done: Vec<String> = Vec::new();
    let mut last = String::new();
    assert(done.deep_view().push(last@) =~= pieces(s@.take(0), sep));
    for i in 0..cs.len()
        invariant
            cs@ == s@,
            done.deep_view().push(last@) == pieces(s@.take(i as int), sep),
    {
        let c = cs[i];
        let ghost before = done.deep_view();
        let ghost piece = last@;
        assert(s@.take(i + 1).drop_last() == s@.take(i as int));
        assert(before.push(piece).drop_last() == before);
        if c == sep {
            done.push(last);
            last = String::new();
            assert(done.deep_view() =~= before.push(piece));
        } else {
            last.push(c);
        }
        assert(done.deep_view().push(last@) =~= pieces(s@.take(i + 1), sep));
    }
    assert(s@.take(s@.len() as int) == s@);
    let ghost front = done.deep_view();
    let ghost piece = last@;
    done.push(last);
    assert(done.deep_view() =~= front.push(piece));
    done
}

/// The canonical form of the domain name `s`.
pub fn normalize(s: &str) -> (r: String)
    ensures
        r@ == normalized(s@),
{
    to_lower(strip_dot(trim(s)))
}

/// Whether `name` is `zone` itself or a name below it.
pub fn is_under(name: &str, zone: &str) -> (r: bool)
    ensures
        r == under(name@, zone@),
{
    let dotted = dotted(zone);
    same_text(name, zone) || ends_with(name, &dotted)
}

/// `zone` behind a dot.
pub fn dotted(zone: &str) -> (r: String)
    ensures
        r@ == seq!['.'] + zone@,
{
    let mut r = String::new();
    r.push('.');
    r.append(zone);
    assert(r@ =~= seq!['.'] + zone@);
    r
}

/// A copy of `texts`.
pub fn copy_texts(texts: &Vec<String>) -> (r: Vec<String>)
    ensures
        r.deep_view() == texts.deep_view(),
{
    let mut r: Vec<String> = Vec::new();
    for i in 0..texts.len()
        invariant
            r.deep_view() == texts.deep_view().take(i as int),
    {
        let ghost before = r.deep_view();
        r.push(texts[i].clone());
        assert(r.deep_view() =~= before.push(texts[i as int]@));
        assert(texts.deep_view().take(i + 1) =~= before.push(texts[i as int]@));
    }
    assert(texts.deep_view().take(texts@.len() as int) =~= texts.deep_view());
    r
}

/// Trimming leaves no white space at either end and lengthens nothing.
pub proof fn trimmed_is_bare(s: Seq<char>)
    ensures
        trimmed(s).len() <= s.len(),
        trimmed(s).len() == s.len() ==> trimmed(s) == s,
        trimmed(s).len() > 0 ==> !white(trimmed(s)[0]) && !white(trimmed(s).last()),
{
    trimmed_start_is_bare(s);
    trimmed_end_is_bare(trimmed_start(s));
}

proof fn trimmed_start_is_bare(s: Seq<char>)
    ensures
        trimmed_start(s).len() <= s.len(),
        trimmed_start(s).len() == s.len() ==> trimmed_start(s) == s,
        trimmed_start(s).len() > 0 ==> !white(trimmed_start(s)[0]),
    decreases s.len(),
{
    if s.len() > 0 && white(s[0]) {
        trimmed_start_is_bare(s.drop_first());
    }
}

proof fn trimmed_end_is_bare(s: Seq<char>)
    ensures
        trimmed_end(s).len() <= s.len(),
        trimmed_end(s).len() == s.len() ==> trimmed_end(s) == s,
        trimmed_end(s).len() > 0 ==> !white(trimmed_end(s).last()) && trimmed_end(s)[0] == s[0],
    decreases s.len(),
{
    if s.len() > 0 && white(s.last()) {
        trimmed_end_is_bare(s.drop_last());
    }
}

/// A small letter stays as it is, and what is white space or a dot stays what it is.
pub proof fn lower_char_keeps(c: char)
    ensures
        lower_char(lower_char(c)) == lower_char(c),
        white(lower_char(c)) <==> white(c),
        lower_char(c) == '.' <==> c == '.',
{
    if 'A' <= c <= 'Z' {
        assert(((c as u8) + 32) as char as int == c as int + 32);
    }
}

/// `s` does not end in white space or a dot.
pub open spec fn ends_well(s: Seq<char>) -> bool {
    s.len() > 0 ==> !white(s.last()) && s.last() != '.'
}

/// A canonical name is its own canonical form, unless it still ends in white space or a dot.
pub proof fn normalized_twice(s: Seq<char>)
    requires
        ends_well(normalized(s)),
    ensures
        normalized(normalized(s)) == normalized(s),
{
    let n = normalized(s);
    let w = without_dot(trimmed(s));
    trimmed_is_bare(s);
    if n.len() > 0 {
        lower_char_keeps(w[0]);
        assert(n[0] == lower_char(w[0]));
        assert(w[0] == trimmed(s)[0]);
        assert(trimmed(n) == n);
    }
    assert(lower(n) =~= n) by {
        assert forall|i: int| 0 <= i < n.len() implies lower(n)[i] == n[i] by {
            lower_char_keeps(w[i]);
        }
    }
}

/// A name that is its own canonical form begins and ends well, and is in small letters.
pub proof fn canonical_ends_well(s: Seq<char>)
    requires
        normalized(s) == s,
    ensures
        ends_well(s),
        s.len() > 0 ==> !white(s[0]),
        lower(s) == s,
{
    trimmed_is_bare(s);
    assert(trimmed(s) == s);
    assert(without_dot(s) == s);
}

/// The case of a name does not matter for its canonical form.
pub proof fn normalized_ignores_case(s: Seq<char>)
    ensures
        normalized(lower(s)) == normalized(s),
{
    lower_trims_start(s);
    lower_trims_end(trimmed_start(s));
    let t = trimmed(s);
    assert(lower(t).len() == t.len());
    if t.len() > 0 {
        lower_char_keeps(t.last());
        assert(lower(t).last() == lower_char(t.last()));
        assert(lower(t).drop_last() =~= lower(t.drop_last()));
    }
    lower_twice(without_dot(t));
}

proof fn lower_twice(s: Seq<char>)
    ensures
        lower(lower(s)) == lower(s),
{
    assert forall|i: int| 0 <= i < s.len() implies lower(lower(s))[i] == lower(s)[i] by {
        lower_char_keeps(s[i]);
    }
    assert(lower(lower(s)) =~= lower(s));
}

proof fn lower_trims_start(s: Seq<char>)
    ensures
        trimmed_start(lower(s)) == lower(trimmed_start(s)),
    decreases s.len(),
{
    if s.len() > 0 {
        lower_char_keeps(s[0]);
        assert(lower(s)[0] == lower_char(s[0]));
        assert(lower(s).drop_first() =~= lower(s.drop_first()));
        lower_trims_start(s.drop_first());
    }
}

proof fn lower_trims_end(s: Seq<char>)
    ensures
        trimmed_end(lower(s)) == lower(trimmed_end(s)),
    decreases s.len(),
{
    if s.len() > 0 {
        lower_char_keeps(s.last());
        assert(lower(s).last() == lower_char(s.last()));
        assert(lower(s).drop_last() =~= lower(s.drop_last()));
        lower_trims_end(s.drop_last());
    }
}

/// A trailing dot does not matter for the canonical form of a name that does not end in
/// white space or a dot itself.
pub proof fn normalized_ignores_dot(s: Seq<char>)
    requires
        ends_well(s),
    ensures
        normalized(s.push('.')) == normalized(s),
{
    dotted_trims_start(s);
    let t = trimmed_start(s);
    trimmed_start_is_bare(s);
    trimmed_start_keeps_end(s);
    assert(trimmed_end(t.push('.')) == t.push('.'));
    assert(t.push('.').drop_last() =~= t);
    assert(trimmed_end(t) == t);
    assert(without_dot(t) == t);
}

proof fn trimmed_start_keeps_end(s: Seq<char>)
    ensures
        trimmed_start(s).len() > 0 ==> trimmed_start(s).last() == s.last(),
    decreases s.len(),
{
    if s.len() > 0 && white(s[0]) {
        trimmed_start_keeps_end(s.drop_first());
    }
}

proof fn dotted_trims_start(s: Seq<char>)
    ensures
        trimmed_start(s.push('.')) == trimmed_start(s).push('.'),
    decreases s.len(),
{
    if s.len() > 0 && white(s[0]) {
        assert(s.push('.').drop_first() =~= s.drop_first().push('.'));
        dotted_trims_start(s.drop_first());
    }
}

/// A name in a canonical zone that is not empty is its own canonical form, once it is in
/// canonical form.
pub proof fn name_in_zone_is_canonical(s: Seq<char>, zone: Seq<char>)
    requires
        normalized(zone) == zone,
        zone.len() > 0,
        under(normalized(s), zone),
    ensures
        normalized(normalized(s)) == normalized(s),
{
    let n = normalized(s);
    canonical_ends_well(zone);
    if n != zone {
        let tail = seq!['.'] + zone;
        assert(n.subrange(n.len() - tail.len(), n.len() as int).last() == n.last());
        assert(tail.last() == zone.last());
    }
    normalized_twice(s);
}

/// The code point is that of a space, a line break or another character that is not shown.
pub open spec fn unseen(n: int) -> bool {
    9 <= n <= 13 || n == 32 || n == 133 || n == 160 || n == 5760 || 8192 <= n <= 8202 || n == 8232
        || n == 8233 || n == 8239 || n == 8287 || n == 12288
}

proof fn trimmed_start_of_longer(s: Seq<char>, c: char)
    requires
        white(c),
    ensures
        trimmed_start(s).len() > 0 ==> trimmed_start(s.push(c)) == trimmed_start(s).push(c),
        trimmed_start(s).len() == 0 ==> trimmed_start(s.push(c)).len() == 0,
    decreases s.len(),
{
    if s.len() > 0 {
        assert(s.push(c).drop_first() =~= s.drop_first().push(c));
        if white(s[0]) {
            trimmed_start_of_longer(s.drop_first(), c);
        }
    } else {
        assert(s.push(c).drop_first() =~= Seq::empty());
        assert(trimmed_start(s.push(c)) == trimmed_start(Seq::<char>::empty()));
    }
}

/// Spaces, tabs, line breaks and the like do not count at either end of a text.
pub proof fn unseen_ends_do_not_count(s: Seq<char>, c: char)
    requires
        unseen(c as int),
    ensures
        trimmed(seq![c] + s) == trimmed(s),
        trimmed(s.push(c)) == trimmed(s),
        normalized(seq![c] + s) == normalized(s),
        normalized(s.push(c)) == normalized(s),
{
    assert((seq![c] + s).drop_first() =~= s);
    assert((seq![c] + s)[0] == c);
    assert(trimmed_start(seq![c] + s) == trimmed_start(s));
    trimmed_start_of_longer(s, c);
    let t = trimmed_start(s);
    if t.len() > 0 {
        assert(t.push(c).drop_last() =~= t);
        assert(trimmed_end(t.push(c)) == trimmed_end(t));
    } else {
        assert(trimmed_start(s.push(c)) =~= t);
    }
}

/// A text that begins and ends with something that is shown is trimmed of nothing.
pub proof fn seen_ends_are_kept(s: Seq<char>)
    requires
        s.len() > 0 ==> !unseen(s[0] as int) && !unseen(s.last() as int),
    ensures
        trimmed(s) == s,
{
}

/// The letters `A` to `Z` become `a` to `z`, and nothing else changes.
pub proof fn capitals_become_small(s: Seq<char>, i: int)
    requires
        0 <= i < s.len(),
    ensures
        lower(s).len() == s.len(),
        65 <= s[i] as int <= 90 ==> lower(s)[i] as int == s[i] as int + 32,
        !(65 <= s[i] as int <= 90) ==> lower(s)[i] == s[i],
{
    if 'A' <= s[i] <= 'Z' {
        assert(((s[i] as u8) + 32) as char as int == s[i] as int + 32);
    }
}

/// A name in small letters that begins and ends with something that is shown, and not with
/// a dot, is its own canonical form; with one dot more it has the same, with two it has not.
pub proof fn plain_name_is_canonical(s: Seq<char>)
    requires
        s.len() > 0,
        !unseen(s[0] as int),
        !unseen(s.last() as int),
        s.last() != '.',
        forall|i: int| 0 <= i < s.len() ==> !(65 <= #[trigger] s[i] as int <= 90),
    ensures
        normalized(s) == s,
        normalized(s.push('.')) == s,
        normalized(s.push('.').push('.')) == s.push('.'),
{
    seen_ends_are_kept(s);
    seen_ends_are_kept(s.push('.'));
    seen_ends_are_kept(s.push('.').push('.'));
    assert(lower(s) =~= s) by {
        assert forall|i: int| 0 <= i < s.len() implies lower(s)[i] == s[i] by {
            capitals_become_small(s, i);
        }
    }
    assert(s.push('.').drop_last() =~= s);
    assert(s.push('.').push('.').drop_last() =~= s.push('.'));
    assert(lower(s.push('.')) =~= s.push('.')) by {
        assert forall|i: int| 0 <= i < s.len() + 1 implies lower(s.push('.'))[i] == s.push('.')[i] by {
            capitals_become_small(s.push('.'), i);
        }
    }
}

/// A name lies in a zone where it is the zone, or has a dot before the zone at its end, and
/// nowhere else.
pub proof fn under_is_below_a_dot(name: Seq<char>, zone: Seq<char>)
    ensures
        under(zone, zone),
        under(name + seq!['.'] + zone, zone),
        under(name, zone) && name != zone ==> name.len() > zone.len() && name == name.take(
            name.len() - zone.len() - 1,
        ) + seq!['.'] + zone,
{
    let longer = name + seq!['.'] + zone;
    let tail = seq!['.'] + zone;
    assert(longer.subrange(longer.len() - tail.len(), longer.len() as int) =~= tail);
    if under(name, zone) && name != zone {
        let end = name.subrange(name.len() - tail.len(), name.len() as int);
        assert(end == tail);
        let front = name.take(name.len() - zone.len() - 1);
        assert(name =~= front + end);
        assert(front + tail =~= front + seq!['.'] + zone);
    }
}

/// Texts are ordered by the first character in which they differ, and a text comes before
/// those that go on where it ends.
pub proof fn first_difference_orders(a: Seq<char>, b: Seq<char>, k: int)
    requires
        0 <= k <= a.len(),
        k < b.len(),
        forall|i: int| 0 <= i < k ==> #[trigger] a[i] == b[i],
    ensures
        k == a.len() ==> text_before(a, b) && !text_before(b, a),
        k < a.len() && (a[k] as int) < b[k] as int ==> text_before(a, b) && !text_before(b, a),
        k < a.len() && (b[k] as int) < a[k] as int ==> text_before(b, a) && !text_before(a, b),
    decreases k,
{
    if k > 0 {
        assert(a[0] == b[0]);
        let x = a.drop_first();
        let y = b.drop_first();
        assert forall|i: int| 0 <= i < k - 1 implies #[trigger] x[i] == y[i] by {
            assert(a[i + 1] == b[i + 1]);
        }
        first_difference_orders(x, y, k - 1);
    }
}

/// The texts one after the other, with `sep` between them.
pub open spec fn joined(texts: Seq<Seq<char>>, sep: char) -> Seq<char>
    decreases texts.len(),
{
    if texts.len() == 0 {
        Seq::empty()
    } else if texts.len() == 1 {
        texts[0]
    } else {
        joined(texts.drop_last(), sep) + seq![sep] + texts.last()
    }
}

/// The pieces of a text make up the text again, and none of them holds the separator.
pub proof fn pieces_make_up_text(s: Seq<char>, sep: char)
    ensures
        pieces(s, sep).len() > 0,
        joined(pieces(s, sep), sep) == s,
        forall|i: int| 0 <= i < pieces(s, sep).len() ==> !(#[trigger] pieces(s, sep)[i]).contains(sep),
    decreases s.len(),
{
    if s.len() > 0 {
        let front = s.drop_last();
        let had = pieces(front, sep);
        let has = pieces(s, sep);
        pieces_make_up_text(front, sep);
        assert(s =~= front.push(s.last()));
        if s.last() == sep {
            assert(has.drop_last() =~= had);
            assert(joined(has, sep) =~= front.push(sep));
            assert forall|i: int| 0 <= i < has.len() implies !(#[trigger] has[i]).contains(sep) by {
                if i < had.len() {
                    assert(has[i] == had[i]);
                }
            }
        } else {
            assert(has.drop_last() =~= had.drop_last());
            assert(has.last() == had.last().push(s.last()));
            assert(joined(has, sep) =~= joined(had, sep).push(s.last()));
            assert forall|i: int| 0 <= i < has.len() implies !(#[trigger] has[i]).contains(sep) by {
                if i < had.len() - 1 {
                    assert(has[i] == had[i]);
                } else {
                    let last = had[had.len() - 1];
                    assert(!last.contains(sep));
                    if has[i].contains(sep) {
                        let j = choose|j: int| 0 <= j < has[i].len() && has[i][j] == sep;
                        assert(last[j] == sep);
                    }
                }
            }
        }
    } else {
        assert(pieces(s, sep)[0] =~= s);
    }
}

/// A text holds a part exactly where the part stands between what is before and behind it.
pub proof fn parts_are_found(before: Seq<char>, part: Seq<char>, behind: Seq<char>, s: Seq<char>)
    ensures
        has_part(before + part + behind, part),
        has_part(s, part) ==> exists|i: int|
            0 <= i <= s.len() - part.len() && s == s.take(i) + part + #[trigger] s.skip(
                i + part.len(),
            ),
{
    let whole = before + part + behind;
    assert(whole.subrange(before.len() as int, (before.len() + part.len()) as int) =~= part);
    assert(has_part_at(whole, part, before.len() as int));
    if has_part(s, part) {
        let i = choose|i: int| has_part_at(s, part, i);
        assert(s =~= s.take(i) + s.subrange(i, i + part.len()) + s.skip(i + part.len()));
    }
}

/// A text without the separator is one piece, and behind a separator it is one more piece.
proof fn piece_behind(s: Seq<char>, b: Seq<char>, sep: char)
    requires
        !b.contains(sep),
    ensures
        pieces(b, sep) == seq![b],
        pieces(s + seq![sep] + b, sep) == pieces(s, sep).push(b),
    decreases b.len(),
{
    if b.len() == 0 {
        assert(b =~= Seq::empty());
        assert((s + seq![sep] + b).drop_last() =~= s);
        assert((s + seq![sep] + b).last() == sep);
    } else {
        let front = b.drop_last();
        assert(b.last() != sep) by {
            assert(b[b.len() - 1] == b.last());
        }
        assert(!front.contains(sep)) by {
            if front.contains(sep) {
                let i = choose|i: int| 0 <= i < front.len() && front[i] == sep;
                assert(b[i] == sep);
            }
        }
        piece_behind(s, front, sep);
        let whole = s + seq![sep] + b;
        assert(whole.drop_last() =~= s + seq![sep] + front);
        assert(whole.last() == b.last());
        assert(front.push(b.last()) =~= b);
        assert(pieces(b, sep) =~= seq![b]);
        assert(pieces(whole, sep) =~= pieces(s, sep).push(b));
    }
}

/// Texts without the separator are the pieces of what they make up with it between them.
pub proof fn joined_texts_are_pieces(texts: Seq<Seq<char>>, sep: char)
    requires
        texts.len() > 0,
        forall|i: int| 0 <= i < texts.len() ==> !(#[trigger] texts[i]).contains(sep),
    ensures
        pieces(joined(texts, sep), sep) == texts,
    decreases texts.len(),
{
    let last = texts[texts.len() - 1];
    assert(!last.contains(sep));
    if texts.len() == 1 {
        piece_behind(Seq::empty(), last, sep);
        assert(texts =~= seq![last]);
    } else {
        let front = texts.drop_last();
        assert forall|i: int| 0 <= i < front.len() implies !(#[trigger] front[i]).contains(sep) by {
            assert(front[i] == texts[i]);
        }
        joined_texts_are_pieces(front, sep);
        piece_behind(joined(front, sep), last, sep);
        assert(front.push(last) =~= texts);
    }
}

} // verus!
