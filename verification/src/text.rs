//! Trimming and cutting text.
use vstd::prelude::*;

verus! {

/// The characters with the Unicode property `White_Space`.
pub open spec fn is_space(c: char) -> bool {
    let n = c as u32;
    ||| 0x9 <= n <= 0xd
    ||| n == 0x20
    ||| n == 0x85
    ||| n == 0xa0
    ||| n == 0x1680
    ||| 0x2000 <= n <= 0x200a
    ||| n == 0x2028
    ||| n == 0x2029
    ||| n == 0x202f
    ||| n == 0x205f
    ||| n == 0x3000
}

/// The text without the white space at its start.
pub open spec fn trimmed_start(s: Seq<char>) -> Seq<char>
    decreases s.len(),
{
    if s.len() > 0 && is_space(s[0]) {
        trimmed_start(s.drop_first())
    } else {
        s
    }
}

/// The text without the white space at its end.
pub open spec fn trimmed_end(s: Seq<char>) -> Seq<char>
    decreases s.len(),
{
    if s.len() > 0 && is_space(s.last()) {
        trimmed_end(s.drop_last())
    } else {
        s
    }
}

/// The text without the white space around it.
pub open spec fn trimmed(s: Seq<char>) -> Seq<char> {
    trimmed_end(trimmed_start(s))
}

/// Whether a text begins with another.
pub open spec fn begins_with(s: Seq<char>, prefix: Seq<char>) -> bool {
    prefix.len() <= s.len() && s.take(prefix.len() as int) == prefix
}

/// Whether a text ends with another.
pub open spec fn ends_with(s: Seq<char>, suffix: Seq<char>) -> bool {
    suffix.len() <= s.len() && s.skip(s.len() - suffix.len()) == suffix
}

/// Whether the character is white space.
pub fn is_space_char(c: char) -> (r: bool)
    ensures
        r == is_space(c),
{
    let n: u32 = c as u32;
    (0x9 <= n && n <= 0xd) || n == 0x20 || n == 0x85 || n == 0xa0 || n == 0x1680 || (0x2000 <= n
        && n <= 0x200a) || n == 0x2028 || n == 0x2029 || n == 0x202f || n == 0x205f || n == 0x3000
}

/// The characters of a text.
pub(crate) fn chars_of(s: &str) -> (r: Vec<char>)
    ensures
        r@ == s@,
{
    let mut out: Vec<char> = Vec::new();
    for c in it: s.chars()
        invariant
            out@ == it.seq().take(it.index() as int),
            it.seq() == s@,
    {
        out.push(c);
        assert(out@ =~= it.seq().take(it.index() + 1));
    }
    assert(out@ =~= s@);
    out
}

/// The text of the characters from `from` up to `to`.
pub(crate) fn text_of(chars: &Vec<char>, from: usize, to: usize) -> (r: String)
    requires
        from <= to <= chars.len(),
    ensures
        r@ == chars@.subrange(from as int, to as int),
{
    let mut out: String = String::new();
    let mut i: usize = from;
    assert(out@ =~= chars@.subrange(from as int, from as int));
    while i < to
        invariant
            from <= i <= to <= chars.len(),
            out@ == chars@.subrange(from as int, i as int),
        decreases to - i,
    {
        out.push(chars[i]);
        assert(out@ =~= chars@.subrange(from as int, i + 1));
        i = i + 1;
    }
    out
}

/// The bounds of what trimming leaves of the characters from `from` up to `to`.
pub(crate) fn trim_bounds(chars: &Vec<char>, from: usize, to: usize) -> (r: (usize, usize))
    requires
        from <= to <= chars.len(),
    ensures
        from <= r.0 <= r.1 <= to,
        chars@.subrange(r.0 as int, r.1 as int) == trimmed(
            chars@.subrange(from as int, to as int),
        ),
{
    let mut start: usize = from;
    while start < to && is_space_char(chars[start])
        invariant
            from <= start <= to <= chars.len(),
            trimmed_start(chars@.subrange(from as int, to as int)) == trimmed_start(
                chars@.subrange(start as int, to as int),
            ),
        ensures
            from <= start <= to,
            trimmed_start(chars@.subrange(from as int, to as int)) == trimmed_start(
                chars@.subrange(start as int, to as int),
            ),
            start < to ==> !is_space(chars@[start as int]),
        decreases to - start,
    {
        assert(chars@.subrange(start as int, to as int).drop_first() =~= chars@.subrange(
            start + 1,
            to as int,
        ));
        start = start + 1;
    }
    let ghost kept = chars@.subrange(start as int, to as int);
    assert(trimmed_start(kept) == kept);
    let mut end: usize = to;
    while end > start && is_space_char(chars[end - 1])
        invariant
            start <= end <= to <= chars.len(),
            trimmed_end(kept) == trimmed_end(chars@.subrange(start as int, end as int)),
        ensures
            start <= end <= to,
            trimmed_end(kept) == trimmed_end(chars@.subrange(start as int, end as int)),
            end > start ==> !is_space(chars@[end - 1]),
        decreases end,
    {
        assert(chars@.subrange(start as int, end as int).drop_last() =~= chars@.subrange(
            start as int,
            end - 1,
        ));
        end = end - 1;
    }
    (start, end)
}

/// Whether the characters from `at` on begin with the given text.
pub(crate) fn has_text_at(chars: &Vec<char>, at: usize, to: usize, text: &str) -> (r: bool)
    requires
        at <= to <= chars.len(),
    ensures
        r == begins_with(chars@.subrange(at as int, to as int), text@),
{
    let wanted: Vec<char> = chars_of(text);
    let ghost found = chars@.subrange(at as int, to as int);
    if wanted.len() > to - at {
        return false;
    }
    let mut i: usize = 0;
    while i < wanted.len()
        invariant
            at <= to <= chars.len(),
            wanted.len() <= to - at,
            i <= wanted.len(),
            wanted@ == text@,
            found == chars@.subrange(at as int, to as int),
            forall|j: int| 0 <= j < i ==> #[trigger] found[j] == wanted@[j],
        decreases wanted.len() - i,
    {
        if chars[at + i] != wanted[i] {
            assert(found[i as int] != wanted@[i as int]);
            assert(found.take(wanted.len() as int)[i as int] != wanted@[i as int]);
            return false;
        }
        assert(found[i as int] == wanted@[i as int]);
        i = i + 1;
    }
    assert(found.take(wanted.len() as int) =~= wanted@);
    true
}

/// Whether a text is all white space.
pub(crate) fn is_blank(s: &str) -> (r: bool)
    ensures
        r == (trimmed(s@).len() == 0),
{
    let chars: Vec<char> = chars_of(s);
    let (from, to): (usize, usize) = trim_bounds(&chars, 0, chars.len());
    assert(chars@.subrange(0, chars.len() as int) =~= s@);
    from == to
}

/// Whether a text is all white space.
pub open spec fn is_all_space(s: Seq<char>) -> bool {
    forall|i: int| 0 <= i < s.len() ==> is_space(#[trigger] s[i])
}

proof fn lemma_start_trimmed(left: Seq<char>, s: Seq<char>)
    requires
        is_all_space(left),
        s.len() > 0 ==> !is_space(s[0]),
    ensures
        trimmed_start(left + s) == s,
    decreases left.len(),
{
    let all = left + s;
    if left.len() > 0 {
        let fewer = left.drop_first();
        assert(all[0] == left[0]);
        assert(all.drop_first() =~= fewer + s);
        assert forall|i: int| 0 <= i < fewer.len() implies is_space(#[trigger] fewer[i]) by {
            assert(fewer[i] == left[i + 1]);
        }
        lemma_start_trimmed(fewer, s);
    } else {
        assert(all =~= s);
    }
}

proof fn lemma_end_trimmed(s: Seq<char>, right: Seq<char>)
    requires
        is_all_space(right),
        s.len() > 0 ==> !is_space(s.last()),
    ensures
        trimmed_end(s + right) == s,
    decreases right.len(),
{
    let all = s + right;
    if right.len() > 0 {
        let fewer = right.drop_last();
        assert(all.last() == right[right.len() - 1]);
        assert(all.drop_last() =~= s + fewer);
        assert forall|i: int| 0 <= i < fewer.len() implies is_space(#[trigger] fewer[i]) by {
            assert(fewer[i] == right[i]);
        }
        lemma_end_trimmed(s, fewer);
    } else {
        assert(all =~= s);
    }
}

/// Trimming takes the white space around a text off, all of it, and nothing else.
pub proof fn trimming_leaves_the_core(left: Seq<char>, core: Seq<char>, right: Seq<char>)
    requires
        is_all_space(left),
        is_all_space(right),
        core.len() > 0 ==> !is_space(core[0]) && !is_space(core.last()),
    ensures
        trimmed(left + core + right) == core,
{
    if core.len() > 0 {
        let s = core + right;
        assert(s[0] == core[0]);
        assert(left + core + right =~= left + s);
        lemma_start_trimmed(left, s);
        lemma_end_trimmed(core, right);
    } else {
        let all = left + core + right;
        assert forall|i: int| 0 <= i < all.len() implies is_space(#[trigger] all[i]) by {
            if i >= left.len() {
                assert(all[i] == right[i - left.len()]);
            }
        }
        assert(all + core =~= all);
        lemma_start_trimmed(all, core);
        assert(core + Seq::empty() =~= core);
        lemma_end_trimmed(core, Seq::empty());
    }
}

/// Every text is white space, a text that neither begins nor ends with white space, and white
/// space.
pub proof fn every_text_has_a_core(s: Seq<char>) -> (r: (Seq<char>, Seq<char>, Seq<char>))
    ensures
        s == r.0 + r.1 + r.2,
        is_all_space(r.0),
        is_all_space(r.2),
        r.1.len() > 0 ==> !is_space(r.1[0]) && !is_space(r.1.last()),
    decreases s.len(),
{
    if s.len() == 0 {
        assert(s =~= s + s + s);
        (s, s, s)
    } else if is_space(s[0]) {
        let (a, b, c) = every_text_has_a_core(s.drop_first());
        let left = seq![s[0]] + a;
        assert(s =~= seq![s[0]] + s.drop_first());
        assert(seq![s[0]] + (a + b + c) =~= left + b + c);
        assert forall|i: int| 0 <= i < left.len() implies is_space(#[trigger] left[i]) by {
            if i > 0 {
                assert(left[i] == a[i - 1]);
            }
        }
        (left, b, c)
    } else if is_space(s.last()) {
        let (a, b, c) = every_text_has_a_core(s.drop_last());
        let right = c.push(s.last());
        assert(s =~= s.drop_last().push(s.last()));
        assert((a + b + c).push(s.last()) =~= a + b + right);
        (a, b, right)
    } else {
        assert(s =~= Seq::empty() + s + Seq::empty());
        (Seq::empty(), s, Seq::empty())
    }
}

/// The white space is what Unicode counts as such: the control characters from tab to carriage
/// return, the space, the next line, and the spaces and separators beyond ASCII.
pub proof fn white_space_is_that_of_unicode(c: char)
    ensures
        is_space(c) <==> seq![
            0x9u32,
            0xau32,
            0xbu32,
            0xcu32,
            0xdu32,
            0x20u32,
            0x85u32,
            0xa0u32,
            0x1680u32,
            0x2000u32,
            0x2001u32,
            0x2002u32,
            0x2003u32,
            0x2004u32,
            0x2005u32,
            0x2006u32,
            0x2007u32,
            0x2008u32,
            0x2009u32,
            0x200au32,
            0x2028u32,
            0x2029u32,
            0x202fu32,
            0x205fu32,
            0x3000u32,
        ].contains(c as u32),
{
    let n = c as u32;
    let list = seq![
        0x9u32,
        0xau32,
        0xbu32,
        0xcu32,
        0xdu32,
        0x20u32,
        0x85u32,
        0xa0u32,
        0x1680u32,
        0x2000u32,
        0x2001u32,
        0x2002u32,
        0x2003u32,
        0x2004u32,
        0x2005u32,
        0x2006u32,
        0x2007u32,
        0x2008u32,
        0x2009u32,
        0x200au32,
        0x2028u32,
        0x2029u32,
        0x202fu32,
        0x205fu32,
        0x3000u32,
    ];
    if is_space(c) {
        let i: int = if n <= 0xd {
            n - 0x9
        } else if n == 0x20 {
            5
        } else if n == 0x85 {
            6
        } else if n == 0xa0 {
            7
        } else if n == 0x1680 {
            8
        } else if n <= 0x200a {
            9 + (n - 0x2000)
        } else if n == 0x2028 {
            20
        } else if n == 0x2029 {
            21
        } else if n == 0x202f {
            22
        } else if n == 0x205f {
            23
        } else {
            24
        };
        assert(list[i] == n);
    }
}

/// Trimming leaves nothing of a text just when it is all white space.
pub proof fn only_white_space_is_trimmed_away(s: Seq<char>)
    ensures
        trimmed(s).len() == 0 <==> is_all_space(s),
{
    let (left, core, right) = every_text_has_a_core(s);
    trimming_leaves_the_core(left, core, right);
    if core.len() > 0 {
        assert(s[left.len() as int] == core[0]);
    } else {
        assert forall|i: int| 0 <= i < s.len() implies is_space(#[trigger] s[i]) by {
            if i < left.len() {
                assert(s[i] == left[i]);
            } else {
                assert(s[i] == right[i - left.len()]);
            }
        }
    }
}

} // verus!
