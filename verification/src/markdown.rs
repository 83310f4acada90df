use vstd::prelude::*;

verus! {

/// The characters of each string, in order.
pub open spec fn strs(v: Seq<String>) -> Seq<Seq<char>> {
    v.map_values(|s: String| s@)
}

pub proof fn lemma_strs_push(old: Seq<String>, x: String)
    ensures
        strs(old.push(x)) == strs(old).push(x@),
        strs(old).len() == old.len(),
{
    assert(strs(old.push(x)) =~= strs(old).push(x@));
}

/// `items` joined with `sep` between each neighbouring pair.
pub open spec fn join(items: Seq<Seq<char>>, sep: Seq<char>) -> Seq<char>
    decreases items.len(),
{
    if items.len() == 0 {
        Seq::empty()
    } else if items.len() == 1 {
        items[0]
    } else {
        join(items.drop_last(), sep) + sep + items.last()
    }
}

/// `items` without the empty ones, in order.
pub open spec fn non_empty(items: Seq<Seq<char>>) -> Seq<Seq<char>>
    decreases items.len(),
{
    if items.len() == 0 {
        Seq::empty()
    } else if items.last().len() == 0 {
        non_empty(items.drop_last())
    } else {
        non_empty(items.drop_last()).push(items.last())
    }
}

/// The number of backticks that end `s`.
pub open spec fn trailing_backticks(s: Seq<char>) -> nat
    decreases s.len(),
{
    if s.len() > 0 && s.last() == '`' {
        1 + trailing_backticks(s.drop_last())
    } else {
        0
    }
}

/// The length of the longest run of backticks in `s`.
pub open spec fn longest_backtick_run(s: Seq<char>) -> nat
    decreases s.len(),
{
    if s.len() == 0 {
        0
    } else {
        let before = longest_backtick_run(s.drop_last());
        let here = trailing_backticks(s);
        if before < here {
            here
        } else {
            before
        }
    }
}

/// `n` backticks.
pub open spec fn fence(n: nat) -> Seq<char> {
    Seq::new(n, |_i: int| '`')
}

/// A markdown code span holding `text`: fenced by one backtick more than the
/// longest backtick run inside it, and padded by a space on each side when
/// `text` starts or ends with a backtick.
pub open spec fn spec_code_span(text: Seq<char>) -> Seq<char> {
    let f = fence(longest_backtick_run(text) + 1);
    if text.len() > 0 && (text[0] == '`' || text.last() == '`') {
        f + seq![' '] + text + seq![' '] + f
    } else {
        f + text + f
    }
}

pub proof fn lemma_runs_bounded(s: Seq<char>)
    ensures
        trailing_backticks(s) <= s.len(),
        longest_backtick_run(s) <= s.len(),
    decreases s.len(),
{
    if s.len() > 0 {
        lemma_runs_bounded(s.drop_last());
    }
}

/// The longest backtick run bounds the run that ends at any point of `s`.
proof fn lemma_run_within_longest(s: Seq<char>, i: int)
    requires
        0 <= i <= s.len(),
    ensures
        trailing_backticks(s.take(i)) <= longest_backtick_run(s),
    decreases s.len(),
{
    if i == s.len() {
        assert(s.take(i) =~= s);
    } else {
        lemma_run_within_longest(s.drop_last(), i);
        assert(s.drop_last().take(i) =~= s.take(i));
    }
}

/// A code span opens and closes with its fence, and the fence is longer than
/// every run of backticks inside the text, so no run inside closes the span
/// early.
pub proof fn code_span_fence_outlasts_runs(text: Seq<char>, i: int)
    requires
        0 <= i <= text.len(),
    ensures
        trailing_backticks(text.take(i)) < longest_backtick_run(text) + 1,
        spec_code_span(text).take((longest_backtick_run(text) + 1) as int) == fence(
            longest_backtick_run(text) + 1,
        ),
        spec_code_span(text).skip(
            spec_code_span(text).len() - (longest_backtick_run(text) + 1),
        ) == fence(longest_backtick_run(text) + 1),
{
    lemma_run_within_longest(text, i);
    let n = longest_backtick_run(text) + 1;
    let f = fence(n);
    let c = spec_code_span(text);
    assert(c.take(n as int) =~= f);
    assert(c.skip(c.len() - n) =~= f);
}

/// `s` with `n` backticks appended.
fn push_fence(s: &mut String, n: usize)
    ensures
        final(s)@ == old(s)@ + fence(n as nat),
{
    let mut i: usize = 0;
    assert(old(s)@ + fence(0) =~= old(s)@);
    while i < n
        invariant
            0 <= i <= n,
            s@ == old(s)@ + fence(i as nat),
        decreases n - i,
    {
        proof {
            reveal_strlit("`");
        }
        s.append("`");
        i += 1;
        assert(s@ =~= old(s)@ + fence(i as nat));
    }
}

/// Wraps a value in a markdown code span wide enough to contain it.
///
/// A span's fence must be longer than any backtick run inside it, and a value
/// that begins or ends with a backtick needs a space on each side so the fence
/// is not absorbed into the content.
pub fn code_span(text: &str) -> (r: String)
    ensures
        r@ == spec_code_span(text@),
{
    let chars = crate::text::chars_of(text);
    let n = chars.len();
    let mut longest: usize = 0;
    let mut current: usize = 0;
    let mut i: usize = 0;
    while i < n
        invariant
            n == chars@.len(),
            chars@ == text@,
            0 <= i <= n,
            current == trailing_backticks(chars@.take(i as int)),
            longest == longest_backtick_run(chars@.take(i as int)),
            current <= i,
            longest <= i,
        decreases n - i,
    {
        assert(chars@.take(i + 1).drop_last() =~= chars@.take(i as int));
        if chars[i] == '`' {
            current = current + 1;
        } else {
            current = 0;
        }
        if longest < current {
            longest = current;
        }
        i += 1;
    }
    assert(chars@.take(n as int) =~= chars@);
    proof {
        lemma_runs_bounded(text@);
        reveal_strlit(" ");
        reveal_strlit("`");
        assert(fence(longest as nat) + seq!['`'] =~= fence((longest + 1) as nat));
    }
    let mut r = String::new();
    push_fence(&mut r, longest);
    r.append("`");
    let padded = n > 0 && (chars[0] == '`' || chars[n - 1] == '`');
    if padded {
        r.append(" ");
    }
    r.append(text);
    if padded {
        r.append(" ");
    }
    push_fence(&mut r, longest);
    r.append("`");
    proof {
        let f = fence(longest_backtick_run(text@) + 1);
        if padded {
            assert(r@ =~= f + seq![' '] + text@ + seq![' '] + f);
        } else {
            assert(r@ =~= f + text@ + f);
        }
    }
    r
}

/// `items` joined with `sep` between each neighbouring pair.
pub fn join_strings(items: &Vec<String>, sep: &str) -> (r: String)
    ensures
        r@ == join(strs(items@), sep@),
{
    let mut r = String::new();
    let mut i: usize = 0;
    while i < items.len()
        invariant
            0 <= i <= items.len(),
            r@ == join(strs(items@).take(i as int), sep@),
        decreases items.len() - i,
    {
        let ghost prefix = strs(items@).take(i + 1);
        assert(prefix.drop_last() =~= strs(items@).take(i as int));
        if i == 0 {
            r.append(items[i].as_str());
            assert(r@ == prefix[0]);
        } else {
            r.append(sep);
            r.append(items[i].as_str());
        }
        i += 1;
    }
    assert(strs(items@).take(items.len() as int) =~= strs(items@));
    r
}

/// The non-empty strings of `items`, in order.
pub fn retain_non_empty(items: Vec<String>) -> (r: Vec<String>)
    ensures
        strs(r@) == non_empty(strs(items@)),
{
    let mut r: Vec<String> = Vec::new();
    let mut i: usize = 0;
    while i < items.len()
        invariant
            0 <= i <= items.len(),
            strs(r@) == non_empty(strs(items@).take(i as int)),
        decreases items.len() - i,
    {
        let ghost prefix = strs(items@).take(i + 1);
        assert(prefix.drop_last() =~= strs(items@).take(i as int));
        if items[i].as_str().unicode_len() > 0 {
            r.push(items[i].clone());
            assert(strs(r@) =~= non_empty(prefix));
        }
        i += 1;
    }
    assert(strs(items@).take(items.len() as int) =~= strs(items@));
    r
}

} // verus!
