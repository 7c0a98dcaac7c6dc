//! Conflict markers: rendering an N-way conflicted file as text with marker
//! lines, and parsing such text back.
//!
//! A file is a list of lines. A conflict has N sides and N-1 bases and is
//! rendered as one hunk, between an opening `<` marker line and a closing `>`
//! one. In the diff style each base and the next side form a `%` block, a
//! unified diff whose shared leading and trailing lines are context, then a
//! `+` block holds the last side. In the snapshot style `+` and `-` blocks
//! hold every side and base in full. The git style, for two sides, puts the
//! base between `|` and `=` markers. Marker lines start with a run of one
//! marker character two longer than any such run that starts a line of the
//! conflict, and at least seven long.

use vstd::prelude::*;

verus! {

/// The shortest marker run.
pub const MIN_MARKER_LEN: usize = 7;

/// The first `l` characters of the line are `c`.
pub open spec fn is_run(line: Seq<char>, c: char, l: nat) -> bool {
    line.len() >= l && forall|i: int| 0 <= i < l ==> line[i] == c
}

/// The kind of block that the line opens, if it is a marker line: one that
/// starts with `l` copies of one of `+`, `-`, `%`, `<`, `|`, `=` or `>`.
pub open spec fn header_kind(line: Seq<char>, l: nat) -> Option<char> {
    if is_run(line, '+', l) {
        Some('+')
    } else if is_run(line, '-', l) {
        Some('-')
    } else if is_run(line, '%', l) {
        Some('%')
    } else if is_run(line, '<', l) {
        Some('<')
    } else if is_run(line, '|', l) {
        Some('|')
    } else if is_run(line, '=', l) {
        Some('=')
    } else if is_run(line, '>', l) {
        Some('>')
    } else {
        None
    }
}

/// A run of `l` copies of `c`.
pub open spec fn run(c: char, l: nat) -> Seq<char> {
    Seq::new(l, |i: int| c)
}

/// The marker line of a block of kind `c` with the label.
pub open spec fn header_line(c: char, label: Seq<char>, l: nat) -> Seq<char> {
    run(c, l) + label
}

/// The lines of blocks, each its marker line, labelled by the label at the
/// block's position, followed by its body.
pub open spec fn flatten(bs: Seq<(char, Seq<Seq<char>>)>, labels: Seq<Seq<char>>, l: nat) -> Seq<Seq<char>>
    decreases bs.len(),
{
    if bs.len() == 0 {
        Seq::empty()
    } else {
        flatten(bs.drop_last(), labels, l) + seq![header_line(bs.last().0, labels[bs.len() - 1], l)] + bs.last().1
    }
}

/// The decimal digit of `d`.
pub open spec fn digit(d: nat) -> char {
    if d == 0 { '0' } else if d == 1 { '1' } else if d == 2 { '2' } else if d == 3 { '3' } else if d == 4 { '4' }
    else if d == 5 { '5' } else if d == 6 { '6' } else if d == 7 { '7' } else if d == 8 { '8' } else { '9' }
}

/// The decimal numeral of `n`.
pub open spec fn decimal(n: nat) -> Seq<char>
    decreases n,
{
    if n < 10 {
        seq![digit(n)]
    } else {
        decimal(n / 10).push(digit(n % 10))
    }
}

/// The label of the `k`-th side.
pub open spec fn side_label(k: nat) -> Seq<char> {
    " Contents of side #"@ + decimal(k)
}

/// The label of the `k`-th of `nb` bases.
pub open spec fn base_label(nb: nat, k: nat) -> Seq<char> {
    if nb == 1 { " Contents of base"@ } else { " Contents of base #"@ + decimal(k) }
}

/// The label of the diff from the `k`-th of `nb` bases to the `k`-th side.
pub open spec fn diff_label(nb: nat, k: nat) -> Seq<char> {
    if nb == 1 {
        " Changes from base to side #"@ + decimal(k)
    } else {
        " Changes from base #"@ + decimal(k) + " to side #"@ + decimal(k)
    }
}

/// The labels of the snapshot-style blocks for `nb` bases.
pub open spec fn snapshot_labels(nb: nat) -> Seq<Seq<char>> {
    Seq::new(2 * nb + 1, |i: int| if i % 2 == 0 { side_label((i / 2 + 1) as nat) } else { base_label(nb, (i / 2 + 1) as nat) })
}

/// The labels of the diff-style blocks for `nb` bases.
pub open spec fn diff_labels(nb: nat) -> Seq<Seq<char>> {
    Seq::new(nb + 1, |i: int| if i < nb { diff_label(nb, (i + 1) as nat) } else { side_label((nb + 1) as nat) })
}

/// The blocks of lines: each marker line opens a block that holds the lines
/// up to the next one. `None` where a line comes before any marker line.
pub open spec fn parse_blocks(lines: Seq<Seq<char>>, l: nat) -> Option<Seq<(char, Seq<Seq<char>>)>>
    decreases lines.len(),
{
    if lines.len() == 0 {
        Some(Seq::empty())
    } else {
        match parse_blocks(lines.drop_last(), l) {
            None => None,
            Some(bs) => match header_kind(lines.last(), l) {
                Some(c) => Some(bs.push((c, Seq::empty()))),
                None => if bs.len() == 0 {
                    None
                } else {
                    Some(bs.drop_last().push((bs.last().0, bs.last().1.push(lines.last()))))
                },
            },
        }
    }
}

/// The blocks of a conflict: the first side, then each base with the next side.
pub open spec fn blocks_of(adds: Seq<Seq<Seq<char>>>, removes: Seq<Seq<Seq<char>>>) -> Seq<(char, Seq<Seq<char>>)> {
    Seq::new(2 * removes.len() + 1, |i: int| if i % 2 == 0 { ('+', adds[i / 2]) } else { ('-', removes[i / 2]) })
}

/// The sides and bases of alternating `+` and `-` blocks that start and end
/// with a `+` block.
pub open spec fn interpret(bs: Seq<(char, Seq<Seq<char>>)>) -> Option<(Seq<Seq<Seq<char>>>, Seq<Seq<Seq<char>>>)> {
    if bs.len() % 2 == 1 && forall|i: int| 0 <= i < bs.len() ==> (#[trigger] bs[i]).0 == if i % 2 == 0 { '+' } else { '-' } {
        Some((Seq::new(bs.len() / 2 + 1, |k: int| bs[2 * k].1), Seq::new(bs.len() / 2, |k: int| bs[2 * k + 1].1)))
    } else {
        None
    }
}

/// The opening marker line.
pub open spec fn open_line(l: nat) -> Seq<char> {
    run('<', l) + " Conflict 1 of 1"@
}

/// The closing marker line.
pub open spec fn close_line(l: nat) -> Seq<char> {
    run('>', l) + " Conflict 1 of 1 ends"@
}

/// The lines of the conflict rendered with markers of length `l`.
pub open spec fn materialized(adds: Seq<Seq<Seq<char>>>, removes: Seq<Seq<Seq<char>>>, l: nat) -> Seq<Seq<char>> {
    seq![open_line(l)] + flatten(blocks_of(adds, removes), snapshot_labels(removes.len()), l) + seq![close_line(l)]
}

/// The conflict that the lines render with markers of length `l`, if they
/// render one.
pub open spec fn parsed(lines: Seq<Seq<char>>, l: nat) -> Option<(Seq<Seq<Seq<char>>>, Seq<Seq<Seq<char>>>)> {
    if lines.len() >= 2 && is_run(lines[0], '<', l) && is_run(lines.last(), '>', l) {
        match parse_blocks(lines.subrange(1, lines.len() - 1), l) {
            Some(bs) => interpret(bs),
            None => None,
        }
    } else {
        None
    }
}

/// No line of the contents is a marker line for markers of length `l`.
pub open spec fn no_markers_in(contents: Seq<Seq<Seq<char>>>, l: nat) -> bool {
    forall|i: int, j: int| 0 <= i < contents.len() && 0 <= j < contents[i].len() ==> #[trigger] header_kind(contents[i][j], l) is None
}

/// A marker line is of the kind of its marker character.
proof fn lemma_header_kind(c: char, label: Seq<char>, l: nat)
    requires
        c == '+' || c == '-' || c == '%' || c == '<' || c == '|' || c == '=',
        l >= 1,
    ensures
        header_kind(header_line(c, label, l), l) == Some(c),
{
    let h = header_line(c, label, l);
    assert(h[0] == c);
    assert(is_run(h, c, l));
}

proof fn lemma_parse_body(pre: Seq<(char, Seq<Seq<char>>)>, c: char, body: Seq<Seq<char>>, labels: Seq<Seq<char>>, l: nat)
    requires
        parse_blocks(flatten(pre, labels, l), l) == Some(pre),
        c == '+' || c == '-' || c == '%' || c == '<' || c == '|' || c == '=',
        l >= 1,
        forall|j: int| 0 <= j < body.len() ==> #[trigger] header_kind(body[j], l) is None,
    ensures
        parse_blocks(flatten(pre.push((c, body)), labels, l), l) == Some(pre.push((c, body))),
    decreases body.len(),
{
    let bs = pre.push((c, body));
    assert(bs.drop_last() == pre);
    if body.len() == 0 {
        let lines = flatten(bs, labels, l);
        let h = header_line(c, labels[pre.len() as int], l);
        assert(lines == flatten(pre, labels, l) + seq![h] + body);
        assert(lines.drop_last() =~= flatten(pre, labels, l));
        assert(lines.last() == h);
        lemma_header_kind(c, labels[pre.len() as int], l);
        assert(body =~= Seq::<Seq<char>>::empty());
    } else {
        let shorter = body.drop_last();
        assert forall|j: int| 0 <= j < shorter.len() implies #[trigger] header_kind(shorter[j], l) is None by {
            assert(shorter[j] == body[j]);
        }
        lemma_parse_body(pre, c, shorter, labels, l);
        let prev = pre.push((c, shorter));
        assert(prev.drop_last() == pre);
        let lines = flatten(bs, labels, l);
        assert(lines.drop_last() =~= flatten(prev, labels, l));
        assert(lines.last() == body.last());
        assert(header_kind(body[body.len() - 1], l) is None);
        assert(prev.last().1.push(body.last()) =~= body);
        assert(prev.drop_last().push((prev.last().0, prev.last().1.push(body.last()))) =~= bs);
    }
}

proof fn lemma_parse_flatten(bs: Seq<(char, Seq<Seq<char>>)>, labels: Seq<Seq<char>>, l: nat)
    requires
        l >= 1,
        forall|i: int| 0 <= i < bs.len() ==> (#[trigger] bs[i]).0 == '+' || bs[i].0 == '-' || bs[i].0 == '%'
            || bs[i].0 == '<' || bs[i].0 == '|' || bs[i].0 == '=',
        forall|i: int, j: int| 0 <= i < bs.len() && 0 <= j < bs[i].1.len() ==> #[trigger] header_kind(bs[i].1[j], l) is None,
    ensures
        parse_blocks(flatten(bs, labels, l), l) == Some(bs),
    decreases bs.len(),
{
    if bs.len() == 0 {
    } else {
        let pre = bs.drop_last();
        assert forall|i: int| 0 <= i < pre.len() implies (#[trigger] pre[i]).0 == '+' || pre[i].0 == '-' || pre[i].0 == '%'
            || pre[i].0 == '<' || pre[i].0 == '|' || pre[i].0 == '=' by {
            assert(pre[i] == bs[i]);
        }
        assert forall|i: int, j: int| 0 <= i < pre.len() && 0 <= j < pre[i].1.len() implies #[trigger] header_kind(pre[i].1[j], l) is None by {
            assert(pre[i] == bs[i]);
        }
        lemma_parse_flatten(pre, labels, l);
        let last = bs.last();
        assert(last == bs[bs.len() - 1]);
        assert forall|j: int| 0 <= j < last.1.len() implies #[trigger] header_kind(last.1[j], l) is None by {
            assert(header_kind(bs[bs.len() - 1].1[j], l) is None);
        }
        lemma_parse_body(pre, last.0, last.1, labels, l);
        assert(pre.push((last.0, last.1)) == bs);
    }
}

/// Rendering a conflict and parsing the lines back yields the conflict, where
/// no line of it is a marker line for the markers' length.
pub proof fn lemma_materialize_parse_round_trip(adds: Seq<Seq<Seq<char>>>, removes: Seq<Seq<Seq<char>>>, l: nat)
    requires
        adds.len() == removes.len() + 1,
        l >= 1,
        no_markers_in(adds, l),
        no_markers_in(removes, l),
    ensures
        parsed(materialized(adds, removes, l), l) == Some((adds, removes)),
{
    let bs = blocks_of(adds, removes);
    assert forall|i: int| 0 <= i < bs.len() implies (#[trigger] bs[i]).0 == '+' || bs[i].0 == '-' || bs[i].0 == '%'
        || bs[i].0 == '<' || bs[i].0 == '|' || bs[i].0 == '=' by {}
    assert forall|i: int, j: int| 0 <= i < bs.len() && 0 <= j < bs[i].1.len() implies #[trigger] header_kind(bs[i].1[j], l) is None by {
        if i % 2 == 0 {
            assert(bs[i].1 == adds[i / 2]);
            assert(header_kind(adds[i / 2][j], l) is None);
        } else {
            assert(bs[i].1 == removes[i / 2]);
            assert(header_kind(removes[i / 2][j], l) is None);
        }
    }
    lemma_parse_flatten(bs, snapshot_labels(removes.len()), l);
    let lines = materialized(adds, removes, l);
    assert(lines.subrange(1, lines.len() - 1) =~= flatten(bs, snapshot_labels(removes.len()), l));
    assert(lines[0] == open_line(l));
    assert(is_run(open_line(l), '<', l));
    assert(lines.last() == close_line(l));
    assert(is_run(close_line(l), '>', l));
    let r = interpret(bs).unwrap();
    assert(interpret(bs) is Some);
    assert(r.0 =~= adds) by {
        assert forall|k: int| 0 <= k < adds.len() implies r.0[k] == adds[k] by {
            assert(bs[2 * k].1 == adds[(2 * k) / 2]);
            assert((2 * k) / 2 == k);
        }
    }
    assert(r.1 =~= removes) by {
        assert forall|k: int| 0 <= k < removes.len() implies r.1[k] == removes[k] by {
            assert(bs[2 * k + 1].1 == removes[(2 * k + 1) / 2]);
            assert((2 * k + 1) / 2 == k);
        }
    }
}

/// Each line with `c` in front.
pub open spec fn prefixed(c: char, lines: Seq<Seq<char>>) -> Seq<Seq<char>> {
    lines.map_values(|x: Seq<char>| seq![c] + x)
}

/// The lines of the side that `c` marks in a diff: those that start with
/// `c` or with a space (context), without that character, in order.
pub open spec fn unprefixed(c: char, lines: Seq<Seq<char>>) -> Seq<Seq<char>>
    decreases lines.len(),
{
    if lines.len() == 0 {
        Seq::empty()
    } else {
        let rest = unprefixed(c, lines.drop_last());
        let x = lines.last();
        if x.len() > 0 && (x[0] == c || x[0] == ' ') {
            rest.push(x.subrange(1, x.len() as int))
        } else {
            rest
        }
    }
}

/// The first `p` lines of `b` and `s` agree, and their next lines do not.
pub open spec fn is_common_prefix(b: Seq<Seq<char>>, s: Seq<Seq<char>>, p: nat) -> bool {
    &&& p <= b.len() && p <= s.len()
    &&& b.subrange(0, p as int) == s.subrange(0, p as int)
    &&& (p == b.len() || p == s.len() || b[p as int] != s[p as int])
}

/// The last `q` lines of `b` and `s` agree, and the lines before them do not.
pub open spec fn is_common_suffix(b: Seq<Seq<char>>, s: Seq<Seq<char>>, q: nat) -> bool {
    &&& q <= b.len() && q <= s.len()
    &&& b.subrange(b.len() - q, b.len() as int) == s.subrange(s.len() - q, s.len() as int)
    &&& (q == b.len() || q == s.len() || b[b.len() - q - 1] != s[s.len() - q - 1])
}

/// How many leading lines `b` and `s` share.
pub open spec fn common_prefix(b: Seq<Seq<char>>, s: Seq<Seq<char>>) -> nat {
    choose|p: nat| is_common_prefix(b, s, p)
}

/// How many trailing lines `b` and `s` share.
pub open spec fn common_suffix(b: Seq<Seq<char>>, s: Seq<Seq<char>>) -> nat {
    choose|q: nat| is_common_suffix(b, s, q)
}

/// The unified diff from `b` to `s`: the shared leading lines after a
/// space, the rest of `b` after `-`, the rest of `s` after `+`, then the
/// shared trailing lines after a space.
pub open spec fn diff_body(b: Seq<Seq<char>>, s: Seq<Seq<char>>) -> Seq<Seq<char>> {
    let p = common_prefix(b, s);
    let bm = b.subrange(p as int, b.len() as int);
    let sm = s.subrange(p as int, s.len() as int);
    let q = common_suffix(bm, sm);
    prefixed(' ', b.subrange(0, p as int)) + prefixed('-', bm.subrange(0, bm.len() - q))
        + prefixed('+', sm.subrange(0, sm.len() - q)) + prefixed(' ', bm.subrange(bm.len() - q, bm.len() as int))
}

proof fn lemma_common_prefix_is(b: Seq<Seq<char>>, s: Seq<Seq<char>>, p: nat)
    requires
        is_common_prefix(b, s, p),
    ensures
        common_prefix(b, s) == p,
{
    let r = common_prefix(b, s);
    assert(is_common_prefix(b, s, r));
    if r < p {
        assert(b.subrange(0, p as int)[r as int] == s.subrange(0, p as int)[r as int]);
    } else if r > p {
        assert(b.subrange(0, r as int)[p as int] == s.subrange(0, r as int)[p as int]);
    }
}

proof fn lemma_common_suffix_is(b: Seq<Seq<char>>, s: Seq<Seq<char>>, q: nat)
    requires
        is_common_suffix(b, s, q),
    ensures
        common_suffix(b, s) == q,
{
    let r = common_suffix(b, s);
    assert(is_common_suffix(b, s, r));
    if r < q {
        assert(b.subrange(b.len() - q, b.len() as int)[q - r - 1] == s.subrange(s.len() - q, s.len() as int)[q - r - 1]);
    } else if r > q {
        assert(b.subrange(b.len() - r, b.len() as int)[r - q - 1] == s.subrange(s.len() - r, s.len() as int)[r - q - 1]);
    }
}

proof fn lemma_common_prefix_exists(b: Seq<Seq<char>>, s: Seq<Seq<char>>, i: nat)
    requires
        i <= b.len() && i <= s.len(),
        b.subrange(0, i as int) == s.subrange(0, i as int),
    ensures
        exists|p: nat| is_common_prefix(b, s, p),
    decreases b.len() - i,
{
    if i == b.len() || i == s.len() || b[i as int] != s[i as int] {
        assert(is_common_prefix(b, s, i));
    } else {
        assert(b.subrange(0, (i + 1) as int) =~= b.subrange(0, i as int).push(b[i as int]));
        assert(s.subrange(0, (i + 1) as int) =~= s.subrange(0, i as int).push(s[i as int]));
        lemma_common_prefix_exists(b, s, i + 1);
    }
}

proof fn lemma_common_suffix_exists(b: Seq<Seq<char>>, s: Seq<Seq<char>>, i: nat)
    requires
        i <= b.len() && i <= s.len(),
        b.subrange(b.len() - i, b.len() as int) == s.subrange(s.len() - i, s.len() as int),
    ensures
        exists|q: nat| is_common_suffix(b, s, q),
    decreases b.len() - i,
{
    if i == b.len() || i == s.len() || b[b.len() - i - 1] != s[s.len() - i - 1] {
        assert(is_common_suffix(b, s, i));
    } else {
        assert(b.subrange(b.len() - (i + 1), b.len() as int) =~= seq![b[b.len() - i - 1]] + b.subrange(b.len() - i, b.len() as int));
        assert(s.subrange(s.len() - (i + 1), s.len() as int) =~= seq![s[s.len() - i - 1]] + s.subrange(s.len() - i, s.len() as int));
        lemma_common_suffix_exists(b, s, i + 1);
    }
}

/// Reading the base and the side back from their diff yields them.
proof fn lemma_diff_body_round_trip(b: Seq<Seq<char>>, s: Seq<Seq<char>>)
    ensures
        unprefixed('-', diff_body(b, s)) == b,
        unprefixed('+', diff_body(b, s)) == s,
{
    assert(b.subrange(0, 0) =~= s.subrange(0, 0));
    lemma_common_prefix_exists(b, s, 0);
    let p = common_prefix(b, s);
    assert(is_common_prefix(b, s, p));
    let bm = b.subrange(p as int, b.len() as int);
    let sm = s.subrange(p as int, s.len() as int);
    assert(bm.subrange(bm.len() - 0, bm.len() as int) =~= sm.subrange(sm.len() - 0, sm.len() as int));
    lemma_common_suffix_exists(bm, sm, 0);
    let q = common_suffix(bm, sm);
    assert(is_common_suffix(bm, sm, q));
    let pre = b.subrange(0, p as int);
    let bmid = bm.subrange(0, bm.len() - q);
    let smid = sm.subrange(0, sm.len() - q);
    let suf = bm.subrange(bm.len() - q, bm.len() as int);
    let e = Seq::<Seq<char>>::empty();
    assert(unprefixed('-', e) == e);
    assert(unprefixed('+', e) == e);
    assert(e + prefixed(' ', pre) =~= prefixed(' ', pre));
    let x1 = prefixed(' ', pre);
    let x2 = x1 + prefixed('-', bmid);
    let x3 = x2 + prefixed('+', smid);
    let x4 = x3 + prefixed(' ', suf);
    assert(diff_body(b, s) == x4);
    lemma_unprefixed_concat('-', ' ', e, pre);
    lemma_unprefixed_concat('-', '-', x1, bmid);
    lemma_unprefixed_concat('-', '+', x2, smid);
    lemma_unprefixed_concat('-', ' ', x3, suf);
    lemma_unprefixed_concat('+', ' ', e, pre);
    lemma_unprefixed_concat('+', '-', x1, bmid);
    lemma_unprefixed_concat('+', '+', x2, smid);
    lemma_unprefixed_concat('+', ' ', x3, suf);
    assert(e + pre =~= pre);
    assert(pre + bmid + e + suf =~= b);
    assert(pre =~= s.subrange(0, p as int));
    assert(suf =~= sm.subrange(sm.len() - q, sm.len() as int));
    assert(pre + e + smid + suf =~= s);
}

/// The blocks of a conflict in the diff style: for each base, a `%` block
/// with the diff from the base to the next side; then a `+` block with the
/// last side.
pub open spec fn diff_blocks_of(adds: Seq<Seq<Seq<char>>>, removes: Seq<Seq<Seq<char>>>) -> Seq<(char, Seq<Seq<char>>)> {
    Seq::new(removes.len() + 1, |i: int| if i < removes.len() {
        ('%', diff_body(removes[i], adds[i]))
    } else {
        ('+', adds[i])
    })
}

/// The sides and bases of `%` blocks followed by one `+` block.
pub open spec fn interpret_diff(bs: Seq<(char, Seq<Seq<char>>)>) -> Option<(Seq<Seq<Seq<char>>>, Seq<Seq<Seq<char>>>)> {
    if bs.len() >= 1 && bs.last().0 == '+' && forall|i: int| 0 <= i < bs.len() - 1 ==> (#[trigger] bs[i]).0 == '%' {
        Some((
            Seq::new(bs.len(), |i: int| if i < bs.len() - 1 { unprefixed('+', bs[i].1) } else { bs[i].1 }),
            Seq::new((bs.len() - 1) as nat, |i: int| unprefixed('-', bs[i].1)),
        ))
    } else {
        None
    }
}

/// The lines of the conflict rendered in the diff style with markers of length `l`.
pub open spec fn materialized_diff(adds: Seq<Seq<Seq<char>>>, removes: Seq<Seq<Seq<char>>>, l: nat) -> Seq<Seq<char>> {
    seq![open_line(l)] + flatten(diff_blocks_of(adds, removes), diff_labels(removes.len()), l) + seq![close_line(l)]
}

/// The conflict that the lines render in the diff style, if they render one.
pub open spec fn parsed_diff(lines: Seq<Seq<char>>, l: nat) -> Option<(Seq<Seq<Seq<char>>>, Seq<Seq<Seq<char>>>)> {
    if lines.len() >= 2 && is_run(lines[0], '<', l) && is_run(lines.last(), '>', l) {
        match parse_blocks(lines.subrange(1, lines.len() - 1), l) {
            Some(bs) => interpret_diff(bs),
            None => None,
        }
    } else {
        None
    }
}

proof fn lemma_unprefixed_concat(c: char, d: char, x: Seq<Seq<char>>, y: Seq<Seq<char>>)
    ensures
        unprefixed(c, x + prefixed(d, y)) == unprefixed(c, x) + if c == d || d == ' ' { y } else { Seq::empty() },
    decreases y.len(),
{
    if y.len() == 0 {
        assert(x + prefixed(d, y) =~= x);
        assert(unprefixed(c, x) + Seq::<Seq<char>>::empty() =~= unprefixed(c, x));
        assert(unprefixed(c, x) + y =~= unprefixed(c, x));
    } else {
        let yl = y.drop_last();
        lemma_unprefixed_concat(c, d, x, yl);
        let all = x + prefixed(d, y);
        assert(all.drop_last() =~= x + prefixed(d, yl));
        let last = all.last();
        assert(last == seq![d] + y.last());
        assert(last[0] == d);
        assert(last.subrange(1, last.len() as int) =~= y.last());
        if c == d || d == ' ' {
            assert(unprefixed(c, x) + y =~= (unprefixed(c, x) + yl).push(y.last()));
        }
    }
}

proof fn lemma_prefixed_no_markers(c: char, lines: Seq<Seq<char>>, l: nat)
    requires
        c == '+' || c == '-' || c == ' ',
        l >= 2,
        forall|j: int| 0 <= j < lines.len() ==> #[trigger] line_ok(lines[j], (l - 1) as nat),
    ensures
        forall|j: int| 0 <= j < lines.len() ==> #[trigger] header_kind(prefixed(c, lines)[j], l) is None,
{
    assert forall|j: int| 0 <= j < lines.len() implies #[trigger] header_kind(prefixed(c, lines)[j], l) is None by {
        let x = lines[j];
        let y = prefixed(c, lines)[j];
        assert(y == seq![c] + x);
        assert(y[0] == c);
        assert(line_ok(x, (l - 1) as nat));
        if is_run(y, c, l) {
            assert forall|i: int| 0 <= i < l - 1 implies x[i] == c by {
                assert(y[i + 1] == x[i]);
            }
            assert(is_run(x, c, (l - 1) as nat));
        }
    }
}

/// No line of either list is a marker line, so no line of both is.
pub open spec fn no_marker_lines(lines: Seq<Seq<char>>, l: nat) -> bool {
    forall|j: int| 0 <= j < lines.len() ==> #[trigger] header_kind(lines[j], l) is None
}

proof fn lemma_concat_no_markers(a: Seq<Seq<char>>, b: Seq<Seq<char>>, l: nat)
    requires
        no_marker_lines(a, l),
        no_marker_lines(b, l),
    ensures
        no_marker_lines(a + b, l),
{
    assert forall|j: int| 0 <= j < (a + b).len() implies #[trigger] header_kind((a + b)[j], l) is None by {
        if j < a.len() {
            assert((a + b)[j] == a[j]);
        } else {
            assert((a + b)[j] == b[j - a.len()]);
        }
    }
}

proof fn lemma_sub_prefixed_no_markers(c: char, x: Seq<Seq<char>>, from: int, to: int, l: nat)
    requires
        c == '+' || c == '-' || c == ' ',
        l >= 2,
        0 <= from <= to <= x.len(),
        forall|j: int| 0 <= j < x.len() ==> #[trigger] line_ok(x[j], (l - 1) as nat),
    ensures
        no_marker_lines(prefixed(c, x.subrange(from, to)), l),
{
    let sub = x.subrange(from, to);
    assert forall|j: int| 0 <= j < sub.len() implies #[trigger] line_ok(sub[j], (l - 1) as nat) by {
        assert(sub[j] == x[j + from]);
    }
    lemma_prefixed_no_markers(c, sub, l);
}

/// No line of a diff between lines that are not marker runs one shorter than
/// the markers is a marker line.
proof fn lemma_diff_body_no_markers(b: Seq<Seq<char>>, s: Seq<Seq<char>>, l: nat)
    requires
        l >= 2,
        forall|j: int| 0 <= j < b.len() ==> #[trigger] line_ok(b[j], (l - 1) as nat),
        forall|j: int| 0 <= j < s.len() ==> #[trigger] line_ok(s[j], (l - 1) as nat),
    ensures
        no_marker_lines(diff_body(b, s), l),
{
    assert(b.subrange(0, 0) =~= s.subrange(0, 0));
    lemma_common_prefix_exists(b, s, 0);
    let p = common_prefix(b, s);
    assert(is_common_prefix(b, s, p));
    let bm = b.subrange(p as int, b.len() as int);
    let sm = s.subrange(p as int, s.len() as int);
    assert(bm.subrange(bm.len() - 0, bm.len() as int) =~= sm.subrange(sm.len() - 0, sm.len() as int));
    lemma_common_suffix_exists(bm, sm, 0);
    let q = common_suffix(bm, sm);
    assert(is_common_suffix(bm, sm, q));
    assert forall|j: int| 0 <= j < bm.len() implies #[trigger] line_ok(bm[j], (l - 1) as nat) by {
        assert(bm[j] == b[j + p]);
    }
    assert forall|j: int| 0 <= j < sm.len() implies #[trigger] line_ok(sm[j], (l - 1) as nat) by {
        assert(sm[j] == s[j + p]);
    }
    lemma_sub_prefixed_no_markers(' ', b, 0, p as int, l);
    lemma_sub_prefixed_no_markers('-', bm, 0, bm.len() - q, l);
    lemma_sub_prefixed_no_markers('+', sm, 0, sm.len() - q, l);
    lemma_sub_prefixed_no_markers(' ', bm, bm.len() - q, bm.len() as int, l);
    let x1 = prefixed(' ', b.subrange(0, p as int));
    let x2 = prefixed('-', bm.subrange(0, bm.len() - q));
    let x3 = prefixed('+', sm.subrange(0, sm.len() - q));
    let x4 = prefixed(' ', bm.subrange(bm.len() - q, bm.len() as int));
    lemma_concat_no_markers(x1, x2, l);
    lemma_concat_no_markers(x1 + x2, x3, l);
    lemma_concat_no_markers(x1 + x2 + x3, x4, l);
}

/// Rendering a conflict in the diff style and parsing the lines back yields
/// the conflict, where no line of it starts with a marker run one shorter
/// than the markers.
pub proof fn lemma_materialize_parse_diff_round_trip(adds: Seq<Seq<Seq<char>>>, removes: Seq<Seq<Seq<char>>>, l: nat)
    requires
        adds.len() == removes.len() + 1,
        l >= 2,
        no_runs_in(adds, (l - 1) as nat),
        no_runs_in(removes, (l - 1) as nat),
    ensures
        parsed_diff(materialized_diff(adds, removes, l), l) == Some((adds, removes)),
{
    let bs = diff_blocks_of(adds, removes);
    assert forall|i: int| 0 <= i < bs.len() implies (#[trigger] bs[i]).0 == '+' || bs[i].0 == '-' || bs[i].0 == '%'
        || bs[i].0 == '<' || bs[i].0 == '|' || bs[i].0 == '=' by {}
    assert forall|i: int, j: int| 0 <= i < bs.len() && 0 <= j < bs[i].1.len() implies #[trigger] header_kind(bs[i].1[j], l) is None by {
        if i < removes.len() {
            assert forall|k: int| 0 <= k < removes[i].len() implies #[trigger] line_ok(removes[i][k], (l - 1) as nat) by {}
            assert forall|k: int| 0 <= k < adds[i].len() implies #[trigger] line_ok(adds[i][k], (l - 1) as nat) by {}
            lemma_diff_body_no_markers(removes[i], adds[i], l);
            assert(bs[i].1 == diff_body(removes[i], adds[i]));
        } else {
            assert(bs[i].1 == adds[i]);
            assert(line_ok(adds[i][j], (l - 1) as nat));
            lemma_line_ok_mono(adds[i][j], (l - 1) as nat, l);
        }
    }
    lemma_parse_flatten(bs, diff_labels(removes.len()), l);
    let lines = materialized_diff(adds, removes, l);
    assert(lines.subrange(1, lines.len() - 1) =~= flatten(bs, diff_labels(removes.len()), l));
    assert(is_run(open_line(l), '<', l));
    assert(is_run(close_line(l), '>', l));
    assert(bs.last() == bs[bs.len() - 1]);
    assert(interpret_diff(bs) is Some);
    let r = interpret_diff(bs).unwrap();
    assert(r.0 =~= adds) by {
        assert forall|k: int| 0 <= k < adds.len() implies r.0[k] == adds[k] by {
            if k < removes.len() {
                lemma_diff_body_round_trip(removes[k], adds[k]);
            }
        }
    }
    assert(r.1 =~= removes) by {
        assert forall|k: int| 0 <= k < removes.len() implies r.1[k] == removes[k] by {
            lemma_diff_body_round_trip(removes[k], adds[k]);
        }
    }
}

/// The blocks of a two-sided conflict in the git style: the first side, the
/// base, the second side.
pub open spec fn git_blocks_of(adds: Seq<Seq<Seq<char>>>, removes: Seq<Seq<Seq<char>>>) -> Seq<(char, Seq<Seq<char>>)> {
    seq![('<', adds[0]), ('|', removes[0]), ('=', adds[1])]
}

/// The labels of the git-style blocks.
pub open spec fn git_labels() -> Seq<Seq<char>> {
    seq![" Side #1 (Conflict 1 of 1)"@, " Base"@, Seq::<char>::empty()]
}

/// The closing marker line of the git style.
pub open spec fn git_close_line(l: nat) -> Seq<char> {
    run('>', l) + " Side #2 (Conflict 1 of 1 ends)"@
}

/// The lines of a two-sided conflict rendered in the git style.
pub open spec fn materialized_git(adds: Seq<Seq<Seq<char>>>, removes: Seq<Seq<Seq<char>>>, l: nat) -> Seq<Seq<char>> {
    flatten(git_blocks_of(adds, removes), git_labels(), l) + seq![git_close_line(l)]
}

/// The two-sided conflict that the lines render in the git style, if any.
pub open spec fn parsed_git(lines: Seq<Seq<char>>, l: nat) -> Option<(Seq<Seq<Seq<char>>>, Seq<Seq<Seq<char>>>)> {
    if lines.len() >= 1 && is_run(lines.last(), '>', l) {
        match parse_blocks(lines.drop_last(), l) {
            Some(bs) => if bs.len() == 3 && bs[0].0 == '<' && bs[1].0 == '|' && bs[2].0 == '=' {
                Some((seq![bs[0].1, bs[2].1], seq![bs[1].1]))
            } else {
                None
            },
            None => None,
        }
    } else {
        None
    }
}

/// Rendering a two-sided conflict in the git style and parsing the lines
/// back yields the conflict.
pub proof fn lemma_materialize_parse_git_round_trip(adds: Seq<Seq<Seq<char>>>, removes: Seq<Seq<Seq<char>>>, l: nat)
    requires
        adds.len() == 2,
        removes.len() == 1,
        l >= 1,
        no_markers_in(adds, l),
        no_markers_in(removes, l),
    ensures
        parsed_git(materialized_git(adds, removes, l), l) == Some((adds, removes)),
{
    let bs = git_blocks_of(adds, removes);
    assert forall|i: int| 0 <= i < bs.len() implies (#[trigger] bs[i]).0 == '+' || bs[i].0 == '-' || bs[i].0 == '%'
        || bs[i].0 == '<' || bs[i].0 == '|' || bs[i].0 == '=' by {}
    assert forall|i: int, j: int| 0 <= i < bs.len() && 0 <= j < bs[i].1.len() implies #[trigger] header_kind(bs[i].1[j], l) is None by {
        if i == 0 {
            assert(header_kind(adds[0][j], l) is None);
        } else if i == 1 {
            assert(header_kind(removes[0][j], l) is None);
        } else {
            assert(header_kind(adds[1][j], l) is None);
        }
    }
    lemma_parse_flatten(bs, git_labels(), l);
    let lines = materialized_git(adds, removes, l);
    assert(lines.drop_last() =~= flatten(bs, git_labels(), l));
    assert(is_run(git_close_line(l), '>', l));
    assert(seq![bs[0].1, bs[2].1] =~= adds);
    assert(seq![bs[1].1] =~= removes);
}

/// A conflicted file: N sides and N-1 bases, each a list of lines.
pub struct Conflict {
    pub removes: Vec<Vec<Vec<char>>>,
    pub adds: Vec<Vec<Vec<char>>>,
}

/// The lines, as character sequences.
pub open spec fn lines_model(v: Seq<Vec<char>>) -> Seq<Seq<char>> {
    v.map_values(|x: Vec<char>| x@)
}

/// The files, as sequences of lines.
pub open spec fn contents_model(v: Seq<Vec<Vec<char>>>) -> Seq<Seq<Seq<char>>> {
    v.map_values(|f: Vec<Vec<char>>| lines_model(f@))
}

impl Conflict {
    /// Its sides and its bases.
    pub open spec fn model(&self) -> (Seq<Seq<Seq<char>>>, Seq<Seq<Seq<char>>>) {
        (contents_model(self.adds@), contents_model(self.removes@))
    }
}

/// Every line of the files is shorter than the largest `usize` less one.
pub open spec fn lines_fit(v: Seq<Vec<Vec<char>>>) -> bool {
    forall|i: int, j: int| 0 <= i < v.len() && 0 <= j < v[i]@.len() ==> (#[trigger] v[i]@[j])@.len() + 1 < usize::MAX
}

/// A copy of the line.
pub fn copy_line(v: &Vec<char>) -> (r: Vec<char>)
    ensures
        r@ == v@,
{
    let mut r: Vec<char> = Vec::new();
    let mut i: usize = 0;
    while i < v.len()
        invariant
            i <= v@.len(),
            r@ == v@.subrange(0, i as int),
        decreases v@.len() - i,
    {
        r.push(v[i]);
        i = i + 1;
        assert(r@ =~= v@.subrange(0, i as int));
    }
    assert(r@ =~= v@);
    r
}

/// How many copies of `c` start the line.
pub fn leading_run(line: &Vec<char>, c: char) -> (r: usize)
    ensures
        r <= line@.len(),
        is_run(line@, c, r as nat),
        r < line@.len() ==> line@[r as int] != c,
{
    let mut r: usize = 0;
    while r < line.len() && line[r] == c
        invariant
            r <= line@.len(),
            is_run(line@, c, r as nat),
        decreases line@.len() - r,
    {
        r = r + 1;
    }
    r
}

proof fn lemma_short_run_not_marker(line: Seq<char>, c: char, r: nat, l: nat)
    requires
        is_run(line, c, r),
        r < line.len() ==> line[r as int] != c,
        r < l,
    ensures
        !is_run(line, c, l),
{
    if r < line.len() {
        assert(line[r as int] != c);
    }
}

/// The line does not start with `n` copies of a marker character.
pub open spec fn line_ok(line: Seq<char>, n: nat) -> bool {
    &&& !is_run(line, '+', n)
    &&& !is_run(line, '-', n)
    &&& !is_run(line, '%', n)
    &&& !is_run(line, '<', n)
    &&& !is_run(line, '|', n)
    &&& !is_run(line, '=', n)
    &&& !is_run(line, '>', n)
}

/// No line of the contents starts with `n` copies of a marker character.
pub open spec fn no_runs_in(contents: Seq<Seq<Seq<char>>>, n: nat) -> bool {
    forall|i: int, j: int| 0 <= i < contents.len() && 0 <= j < contents[i].len() ==> #[trigger] line_ok(contents[i][j], n)
}

proof fn lemma_line_ok_mono(line: Seq<char>, n: nat, m: nat)
    requires
        line_ok(line, n),
        n <= m,
    ensures
        line_ok(line, m),
{
    assert forall|c: char| is_run(line, c, m) implies is_run(line, c, n) by {}
}

proof fn lemma_no_runs_mono(contents: Seq<Seq<Seq<char>>>, n: nat, m: nat)
    requires
        no_runs_in(contents, n),
        n <= m,
    ensures
        no_runs_in(contents, m),
{
    assert forall|i: int, j: int| 0 <= i < contents.len() && 0 <= j < contents[i].len() implies #[trigger] line_ok(contents[i][j], m) by {
        lemma_line_ok_mono(contents[i][j], n, m);
    }
}

proof fn lemma_no_runs_no_markers(contents: Seq<Seq<Seq<char>>>, n: nat)
    requires
        no_runs_in(contents, n),
    ensures
        no_markers_in(contents, n),
{
    assert forall|i: int, j: int| 0 <= i < contents.len() && 0 <= j < contents[i].len() implies #[trigger] header_kind(contents[i][j], n) is None by {
        assert(line_ok(contents[i][j], n));
    }
}

/// The largest of the runs of marker characters that start the line.
fn longest_run(line: &Vec<char>) -> (r: usize)
    ensures
        r <= line@.len(),
        forall|n: nat| n > r ==> #[trigger] line_ok(line@, n),
        !line_ok(line@, r as nat),
{
    let marks = ['+', '-', '%', '<', '|', '=', '>'];
    let mut longest: usize = 0;
    let mut k: usize = 0;
    while k < 7
        invariant
            k <= 7,
            marks@ == seq!['+', '-', '%', '<', '|', '=', '>'],
            longest <= line@.len(),
            k == 0 ==> longest == 0,
            k > 0 ==> exists|j: int| 0 <= j < k && is_run(line@, #[trigger] marks@[j], longest as nat),
            forall|j: int, n: nat| 0 <= j < k && n > longest ==> !#[trigger] is_run(line@, marks@[j], n),
        decreases 7 - k,
    {
        let c = marks[k];
        let run_len = leading_run(line, c);
        let ghost old_longest = longest;
        if run_len > longest || k == 0 {
            longest = run_len;
        }
        proof {
            assert forall|j: int, n: nat| 0 <= j < k + 1 && n > longest implies !#[trigger] is_run(line@, marks@[j], n) by {
                if j == k {
                    lemma_short_run_not_marker(line@, c, run_len as nat, n);
                }
            }
            if longest == run_len {
                assert(is_run(line@, marks@[k as int], longest as nat));
            } else {
                let j = choose|j: int| 0 <= j < k && is_run(line@, #[trigger] marks@[j], old_longest as nat);
            }
        }
        k = k + 1;
    }
    proof {
        assert forall|n: nat| n > longest implies #[trigger] line_ok(line@, n) by {
            assert(!is_run(line@, marks@[0], n));
            assert(!is_run(line@, marks@[1], n));
            assert(!is_run(line@, marks@[2], n));
            assert(!is_run(line@, marks@[3], n));
            assert(!is_run(line@, marks@[4], n));
            assert(!is_run(line@, marks@[5], n));
            assert(!is_run(line@, marks@[6], n));
        }
        let j = choose|j: int| 0 <= j < 7 && is_run(line@, #[trigger] marks@[j], longest as nat);
    }
    longest
}

/// At least `start`, and more than one longer than every run of `+`, `-`,
/// `%` or `>` that starts a line of the files.
fn marker_len_of(files: &Vec<Vec<Vec<char>>>, start: usize) -> (r: usize)
    requires
        lines_fit(files@),
        start >= 1,
    ensures
        r >= start,
        no_runs_in(contents_model(files@), (r - 1) as nat),
        r == start || has_run(contents_model(files@), (r - 2) as nat),
{
    let mut r = start;
    let mut i: usize = 0;
    while i < files.len()
        invariant
            i <= files@.len(),
            r >= start >= 1,
            lines_fit(files@),
            forall|a: int, b: int| 0 <= a < i && 0 <= b < files@[a]@.len() ==> #[trigger] line_ok(files@[a]@[b]@, (r - 1) as nat),
            r == start || exists|a: int, b: int| 0 <= a < files@.len() && 0 <= b < files@[a]@.len()
                && !#[trigger] line_ok(files@[a]@[b]@, (r - 2) as nat),
        decreases files@.len() - i,
    {
        let file = &files[i];
        let mut j: usize = 0;
        while j < file.len()
            invariant
                i < files@.len(),
                file == &files@[i as int],
                j <= file@.len(),
                r >= start >= 1,
                lines_fit(files@),
                forall|a: int, b: int| 0 <= a < i && 0 <= b < files@[a]@.len() ==> #[trigger] line_ok(files@[a]@[b]@, (r - 1) as nat),
                forall|b: int| 0 <= b < j ==> #[trigger] line_ok(file@[b]@, (r - 1) as nat),
                r == start || exists|a: int, b: int| 0 <= a < files@.len() && 0 <= b < files@[a]@.len()
                    && !#[trigger] line_ok(files@[a]@[b]@, (r - 2) as nat),
            decreases file@.len() - j,
        {
            let line = &file[j];
            assert(line@.len() + 1 < usize::MAX) by {
                assert(files@[i as int]@[j as int] == *line);
            }
            let longest = longest_run(line);
            let ghost r0 = r;
            if longest + 1 >= r {
                r = longest + 2;
            }
            proof {
                if r != r0 {
                    assert(files@[i as int]@[j as int] == *line);
                    assert(!line_ok(files@[i as int]@[j as int]@, (r - 2) as nat));
                }
                assert(line_ok(line@, (r - 1) as nat));
                assert forall|a: int, b: int| 0 <= a < i && 0 <= b < files@[a]@.len() implies #[trigger] line_ok(files@[a]@[b]@, (r - 1) as nat) by {
                    lemma_line_ok_mono(files@[a]@[b]@, (r0 - 1) as nat, (r - 1) as nat);
                }
                assert forall|b: int| 0 <= b < j + 1 implies #[trigger] line_ok(file@[b]@, (r - 1) as nat) by {
                    if b < j {
                        lemma_line_ok_mono(file@[b]@, (r0 - 1) as nat, (r - 1) as nat);
                    }
                }
            }
            j = j + 1;
        }
        i = i + 1;
    }
    proof {
        assert forall|a: int, b: int| 0 <= a < contents_model(files@).len() && 0 <= b < contents_model(files@)[a].len()
            implies #[trigger] line_ok(contents_model(files@)[a][b], (r - 1) as nat) by {
            assert(contents_model(files@)[a][b] == files@[a]@[b]@);
        }
        if r != start {
            let (a, b) = choose|a: int, b: int| 0 <= a < files@.len() && 0 <= b < files@[a]@.len()
                && !#[trigger] line_ok(files@[a]@[b]@, (r - 2) as nat);
            assert(contents_model(files@)[a][b] == files@[a]@[b]@);
        }
    }
    r
}

/// Some line of the contents starts with `n` copies of a marker character.
pub open spec fn has_run(contents: Seq<Seq<Seq<char>>>, n: nat) -> bool {
    exists|i: int, j: int| 0 <= i < contents.len() && 0 <= j < contents[i].len() && !#[trigger] line_ok(contents[i][j], n)
}

/// The marker length for the conflict: at least the minimum, and more than
/// one longer than every run of `+`, `-`, `%` or `>` that starts one of its
/// lines, so that prefixing a line with `+` or `-` keeps it apart from the
/// markers too.
pub fn marker_len(conflict: &Conflict) -> (r: usize)
    requires
        lines_fit(conflict.adds@),
        lines_fit(conflict.removes@),
    ensures
        r >= MIN_MARKER_LEN,
        no_runs_in(conflict.model().0, (r - 1) as nat),
        no_runs_in(conflict.model().1, (r - 1) as nat),
        no_markers_in(conflict.model().0, r as nat),
        no_markers_in(conflict.model().1, r as nat),
        r == MIN_MARKER_LEN || has_run(conflict.model().0, (r - 2) as nat) || has_run(conflict.model().1, (r - 2) as nat),
{
    let a = marker_len_of(&conflict.adds, MIN_MARKER_LEN);
    let b = marker_len_of(&conflict.removes, a);
    proof {
        lemma_no_runs_mono(contents_model(conflict.adds@), (a - 1) as nat, (b - 1) as nat);
        lemma_no_runs_mono(contents_model(conflict.adds@), (b - 1) as nat, b as nat);
        lemma_no_runs_mono(contents_model(conflict.removes@), (b - 1) as nat, b as nat);
        lemma_no_runs_no_markers(contents_model(conflict.adds@), b as nat);
        lemma_no_runs_no_markers(contents_model(conflict.removes@), b as nat);
    }
    b
}

/// A run of `l` copies of `c` followed by `label`.
fn marker_line(c: char, l: usize, label: &Vec<char>) -> (r: Vec<char>)
    ensures
        r@ == run(c, l as nat) + label@,
{
    let mut r: Vec<char> = Vec::new();
    let mut i: usize = 0;
    while i < l
        invariant
            i <= l,
            r@ == run(c, i as nat),
        decreases l - i,
    {
        r.push(c);
        i = i + 1;
        assert(r@ =~= run(c, i as nat));
    }
    append_chars(&mut r, label);
    r
}

/// Appends the characters of `w` to `v`.
fn append_chars(v: &mut Vec<char>, w: &Vec<char>)
    ensures
        final(v)@ == old(v)@ + w@,
{
    let mut k: usize = 0;
    while k < w.len()
        invariant
            k <= w@.len(),
            v@ == old(v)@ + w@.subrange(0, k as int),
        decreases w@.len() - k,
    {
        v.push(w[k]);
        k = k + 1;
        assert(v@ =~= old(v)@ + w@.subrange(0, k as int));
    }
    assert(w@.subrange(0, k as int) == w@);
}

/// The characters of the string.
fn chars_of(s: &str) -> (r: Vec<char>)
    ensures
        r@ == s@,
{
    let mut r: Vec<char> = Vec::new();
    let mut k: usize = 0;
    let n = s.unicode_len();
    while k < n
        invariant
            k <= n == s@.len(),
            r@ == s@.subrange(0, k as int),
        decreases n - k,
    {
        r.push(s.get_char(k));
        k = k + 1;
        assert(r@ =~= s@.subrange(0, k as int));
    }
    assert(s@.subrange(0, k as int) == s@);
    r
}

/// The decimal digit of `d`.
fn digit_of(d: usize) -> (r: char)
    requires
        d < 10,
    ensures
        r == digit(d as nat),
{
    if d == 0 { '0' } else if d == 1 { '1' } else if d == 2 { '2' } else if d == 3 { '3' } else if d == 4 { '4' }
    else if d == 5 { '5' } else if d == 6 { '6' } else if d == 7 { '7' } else if d == 8 { '8' } else { '9' }
}

/// The decimal numeral of `n`.
fn decimal_of(n: usize) -> (r: Vec<char>)
    ensures
        r@ == decimal(n as nat),
    decreases n,
{
    if n < 10 {
        let mut r: Vec<char> = Vec::new();
        r.push(digit_of(n));
        assert(r@ =~= decimal(n as nat));
        r
    } else {
        let mut r = decimal_of(n / 10);
        r.push(digit_of(n % 10));
        r
    }
}

fn side_label_of(k: usize) -> (r: Vec<char>)
    ensures
        r@ == side_label(k as nat),
{
    let mut r = chars_of(" Contents of side #");
    append_chars(&mut r, &decimal_of(k));
    r
}

fn base_label_of(nb: usize, k: usize) -> (r: Vec<char>)
    ensures
        r@ == base_label(nb as nat, k as nat),
{
    if nb == 1 {
        chars_of(" Contents of base")
    } else {
        let mut r = chars_of(" Contents of base #");
        append_chars(&mut r, &decimal_of(k));
        r
    }
}

fn diff_label_of(nb: usize, k: usize) -> (r: Vec<char>)
    ensures
        r@ == diff_label(nb as nat, k as nat),
{
    if nb == 1 {
        let mut r = chars_of(" Changes from base to side #");
        append_chars(&mut r, &decimal_of(k));
        r
    } else {
        let mut r = chars_of(" Changes from base #");
        append_chars(&mut r, &decimal_of(k));
        append_chars(&mut r, &chars_of(" to side #"));
        append_chars(&mut r, &decimal_of(k));
        r
    }
}

proof fn lemma_lines_push(a: Seq<Vec<char>>, x: Vec<char>)
    ensures
        lines_model(a.push(x)) == lines_model(a).push(x@),
{
    assert(lines_model(a.push(x)) =~= lines_model(a).push(x@));
}

proof fn lemma_lines_prefix(a: Seq<Vec<char>>, i: int)
    requires
        0 <= i < a.len(),
    ensures
        lines_model(a.subrange(0, i + 1)) == lines_model(a.subrange(0, i)).push(a[i]@),
{
    assert(a.subrange(0, i + 1) == a.subrange(0, i).push(a[i]));
    lemma_lines_push(a.subrange(0, i), a[i]);
}

/// A copy of the file.
pub fn copy_file(f: &Vec<Vec<char>>) -> (r: Vec<Vec<char>>)
    ensures
        lines_model(r@) == lines_model(f@),
{
    let mut r: Vec<Vec<char>> = Vec::new();
    let mut i: usize = 0;
    while i < f.len()
        invariant
            i <= f@.len(),
            lines_model(r@) == lines_model(f@.subrange(0, i as int)),
        decreases f@.len() - i,
    {
        let ghost r0 = r@;
        r.push(copy_line(&f[i]));
        proof {
            lemma_lines_push(r0, r@[i as int]);
            lemma_lines_prefix(f@, i as int);
        }
        i = i + 1;
    }
    assert(f@.subrange(0, i as int) == f@);
    r
}

/// Appends a block: its marker line, then its body.
fn push_block(out: &mut Vec<Vec<char>>, c: char, label: &Vec<char>, l: usize, body: &Vec<Vec<char>>)
    ensures
        lines_model(final(out)@) == lines_model(old(out)@) + seq![header_line(c, label@, l as nat)] + lines_model(body@),
{
    let header = marker_line(c, l, label);
    let ghost o0 = out@;
    out.push(header);
    let ghost start = lines_model(out@);
    proof {
        lemma_lines_push(o0, out@[o0.len() as int]);
        assert(start =~= lines_model(old(out)@) + seq![header_line(c, label@, l as nat)]);
        assert(lines_model(body@.subrange(0, 0)) =~= Seq::<Seq<char>>::empty());
    }
    let mut i: usize = 0;
    while i < body.len()
        invariant
            i <= body@.len(),
            lines_model(out@) == start + lines_model(body@.subrange(0, i as int)),
        decreases body@.len() - i,
    {
        let ghost o0 = out@;
        out.push(copy_line(&body[i]));
        proof {
            lemma_lines_push(o0, out@[o0.len() as int]);
            lemma_lines_prefix(body@, i as int);
            assert(start + lines_model(body@.subrange(0, i + 1)) =~= (start + lines_model(body@.subrange(0, i as int))).push(body@[i as int]@));
        }
        i = i + 1;
    }
    assert(body@.subrange(0, i as int) == body@);
}

/// Renders the conflict as lines with markers; returns them and the marker
/// length, which no line of the conflict reaches.
pub fn materialize_snapshot(conflict: &Conflict) -> (r: (Vec<Vec<char>>, usize))
    requires
        conflict.adds@.len() == conflict.removes@.len() + 1,
        lines_fit(conflict.adds@),
        lines_fit(conflict.removes@),
    ensures
        r.1 >= MIN_MARKER_LEN,
        no_runs_in(conflict.model().0, (r.1 - 1) as nat),
        no_runs_in(conflict.model().1, (r.1 - 1) as nat),
        no_markers_in(conflict.model().0, r.1 as nat),
        no_markers_in(conflict.model().1, r.1 as nat),
        r.1 == MIN_MARKER_LEN || has_run(conflict.model().0, (r.1 - 2) as nat) || has_run(conflict.model().1, (r.1 - 2) as nat),
        lines_model(r.0@) == materialized(conflict.model().0, conflict.model().1, r.1 as nat),
{
    let l = marker_len(conflict);
    let ghost adds = conflict.model().0;
    let ghost removes = conflict.model().1;
    let ghost bs = blocks_of(adds, removes);
    let ghost labels = snapshot_labels(removes.len());
    let mut out: Vec<Vec<char>> = Vec::new();
    out.push(marker_line('<', l, &chars_of(" Conflict 1 of 1")));
    proof {
        lemma_lines_push(Seq::empty(), out@[0]);
        assert(out@ == Seq::<Vec<char>>::empty().push(out@[0]));
        assert(lines_model(Seq::<Vec<char>>::empty()) =~= Seq::<Seq<char>>::empty());
        assert(flatten(bs.subrange(0, 0), labels, l as nat) =~= Seq::<Seq<char>>::empty());
        assert(lines_model(out@) =~= seq![open_line(l as nat)] + flatten(bs.subrange(0, 0), labels, l as nat));
    }
    let n = conflict.removes.len();
    let na = conflict.adds.len();
    let mut i: usize = 0;
    while i <= n
        invariant
            n == conflict.removes@.len(),
            na == conflict.adds@.len(),
            conflict.adds@.len() == n + 1,
            i <= n + 1,
            adds == conflict.model().0,
            removes == conflict.model().1,
            bs == blocks_of(adds, removes),
            labels == snapshot_labels(removes.len()),
            i > 0 ==> lines_model(out@) == seq![open_line(l as nat)] + flatten(bs.subrange(0, 2 * i - 1), labels, l as nat),
            i == 0 ==> lines_model(out@) == seq![open_line(l as nat)] + flatten(bs.subrange(0, 0), labels, l as nat),
        decreases n + 1 - i,
    {
        if i > 0 {
            let ghost k: int = 2 * i - 1;
            let ghost before = lines_model(out@);
            push_block(&mut out, '-', &base_label_of(n, i), l, &conflict.removes[i - 1]);
            proof {
                assert(labels[k] == base_label(n as nat, i as nat));
                assert(bs.subrange(0, k as int + 1).drop_last() == bs.subrange(0, k as int));
                assert(bs[k as int] == ('-', removes[(i - 1) as int]));
                assert(bs.subrange(0, k as int + 1).last() == bs[k as int]);
                assert(removes[(i - 1) as int] == lines_model(conflict.removes@[(i - 1) as int]@));
                assert(lines_model(out@) =~= seq![open_line(l as nat)] + flatten(bs.subrange(0, k as int + 1), labels, l as nat));
            }
        }
        let ghost before = lines_model(out@);
        push_block(&mut out, '+', &side_label_of(i + 1), l, &conflict.adds[i]);
        proof {
            let k = 2 * i;
            assert(labels[k] == side_label((i + 1) as nat));
            assert(bs.subrange(0, k + 1).drop_last() == bs.subrange(0, k));
            assert(bs[k] == ('+', adds[i as int]));
            assert(bs.subrange(0, k + 1).last() == bs[k]);
            assert(adds[i as int] == lines_model(conflict.adds@[i as int]@));
            assert(lines_model(out@) =~= seq![open_line(l as nat)] + flatten(bs.subrange(0, k + 1), labels, l as nat));
        }
        i = i + 1;
    }
    let ghost o0 = out@;
    out.push(marker_line('>', l, &chars_of(" Conflict 1 of 1 ends")));
    proof {
        lemma_lines_push(o0, out@[o0.len() as int]);
        assert(bs.subrange(0, 2 * i - 1) == bs);
        assert(lines_model(out@) =~= materialized(adds, removes, l as nat));
    }
    (out, l)
}

/// Whether the first `l` characters of the line are `c`.
fn starts_with_run(line: &Vec<char>, c: char, l: usize) -> (r: bool)
    ensures
        r == is_run(line@, c, l as nat),
{
    let n = leading_run(line, c);
    proof {
        if n < l {
            lemma_short_run_not_marker(line@, c, n as nat, l as nat);
        }
    }
    n >= l
}

/// The kind of block that the line opens, if any.
fn header_kind_of(line: &Vec<char>, l: usize) -> (r: Option<char>)
    ensures
        r == header_kind(line@, l as nat),
{
    if starts_with_run(line, '+', l) {
        Some('+')
    } else if starts_with_run(line, '-', l) {
        Some('-')
    } else if starts_with_run(line, '%', l) {
        Some('%')
    } else if starts_with_run(line, '<', l) {
        Some('<')
    } else if starts_with_run(line, '|', l) {
        Some('|')
    } else if starts_with_run(line, '=', l) {
        Some('=')
    } else if starts_with_run(line, '>', l) {
        Some('>')
    } else {
        None
    }
}

/// The blocks, as kinds and lists of lines.
pub open spec fn blocks_model(v: Seq<(char, Vec<Vec<char>>)>) -> Seq<(char, Seq<Seq<char>>)> {
    v.map_values(|b: (char, Vec<Vec<char>>)| (b.0, lines_model(b.1@)))
}

proof fn lemma_parse_none_extends(a: Seq<Seq<char>>, b: Seq<Seq<char>>, l: nat)
    requires
        parse_blocks(a, l) is None,
    ensures
        parse_blocks(a + b, l) is None,
    decreases b.len(),
{
    if b.len() == 0 {
        assert(a + b == a);
    } else {
        lemma_parse_none_extends(a, b.drop_last(), l);
        assert((a + b).drop_last() == a + b.drop_last());
    }
}

/// The blocks of the lines `from .. to`.
fn parse_block_lines(lines: &Vec<Vec<char>>, from: usize, to: usize, l: usize) -> (r: Option<Vec<(char, Vec<Vec<char>>)>>)
    requires
        from <= to <= lines@.len(),
    ensures
        match r {
            Some(bs) => parse_blocks(lines_model(lines@.subrange(from as int, to as int)), l as nat) == Some(blocks_model(bs@)),
            None => parse_blocks(lines_model(lines@.subrange(from as int, to as int)), l as nat) is None,
        },
{
    let ghost all = lines_model(lines@.subrange(from as int, to as int));
    let mut bs: Vec<(char, Vec<Vec<char>>)> = Vec::new();
    let mut i: usize = from;
    assert(lines_model(lines@.subrange(from as int, from as int)) =~= Seq::<Seq<char>>::empty());
    assert(blocks_model(bs@) =~= Seq::<(char, Seq<Seq<char>>)>::empty());
    while i < to
        invariant
            from <= i <= to <= lines@.len(),
            all == lines_model(lines@.subrange(from as int, to as int)),
            parse_blocks(lines_model(lines@.subrange(from as int, i as int)), l as nat) == Some(blocks_model(bs@)),
        decreases to - i,
    {
        let line = &lines[i];
        let ghost pre = lines_model(lines@.subrange(from as int, i as int));
        let ghost post = lines_model(lines@.subrange(from as int, i + 1));
        proof {
            assert(lines@.subrange(from as int, i + 1) == lines@.subrange(from as int, i as int).push(lines@[i as int]));
            lemma_lines_push(lines@.subrange(from as int, i as int), lines@[i as int]);
            assert(post.drop_last() == pre);
            assert(post.last() == line@);
        }
        match header_kind_of(line, l) {
            Some(c) => {
                let ghost b0 = bs@;
                bs.push((c, Vec::new()));
                proof {
                    assert(bs@[b0.len() as int].1@ =~= Seq::<Vec<char>>::empty());
                    assert(lines_model(bs@[b0.len() as int].1@) =~= Seq::<Seq<char>>::empty());
                    assert(blocks_model(bs@) =~= blocks_model(b0).push((c, Seq::<Seq<char>>::empty())));
                }
            },
            None => {
                if bs.len() == 0 {
                    proof {
                        assert(parse_blocks(post, l as nat) is None);
                        assert(all =~= post + lines_model(lines@.subrange(i + 1, to as int)));
                        lemma_parse_none_extends(post, lines_model(lines@.subrange(i + 1, to as int)), l as nat);
                    }
                    return None;
                }
                let ghost b0 = bs@;
                let mut last = bs.pop().unwrap();
                let ghost lb = last.1@;
                last.1.push(copy_line(line));
                bs.push(last);
                proof {
                    lemma_lines_push(lb, last.1@[lb.len() as int]);
                    assert(b0.drop_last() == bs@.drop_last());
                    assert(blocks_model(b0).drop_last() =~= blocks_model(bs@).drop_last());
                    assert(blocks_model(bs@) =~= blocks_model(b0).drop_last().push(
                        (blocks_model(b0).last().0, blocks_model(b0).last().1.push(line@))));
                }
            },
        }
        i = i + 1;
    }
    Some(bs)
}

/// The conflict that alternating blocks describe, if they alternate.
fn interpret_blocks(bs: &Vec<(char, Vec<Vec<char>>)>) -> (r: Option<Conflict>)
    ensures
        match r {
            Some(c) => interpret(blocks_model(bs@)) == Some(c.model()),
            None => interpret(blocks_model(bs@)) is None,
        },
{
    let ghost m = blocks_model(bs@);
    if bs.len() % 2 != 1 {
        return None;
    }
    let mut i: usize = 0;
    while i < bs.len()
        invariant
            i <= bs@.len(),
            m == blocks_model(bs@),
            forall|j: int| 0 <= j < i ==> (#[trigger] m[j]).0 == if j % 2 == 0 { '+' } else { '-' },
        decreases bs@.len() - i,
    {
        let want = if i % 2 == 0 { '+' } else { '-' };
        if bs[i].0 != want {
            assert(m[i as int].0 != want);
            return None;
        }
        i = i + 1;
    }
    let mut adds: Vec<Vec<Vec<char>>> = Vec::new();
    let mut removes: Vec<Vec<Vec<char>>> = Vec::new();
    let mut j: usize = 0;
    while j < bs.len()
        invariant
            j <= bs@.len(),
            bs@.len() % 2 == 1,
            m == blocks_model(bs@),
            adds@.len() == (j + 1) / 2,
            removes@.len() == j / 2,
            forall|k: int| 0 <= k < adds@.len() ==> #[trigger] contents_model(adds@)[k] == m[2 * k].1,
            forall|k: int| 0 <= k < removes@.len() ==> #[trigger] contents_model(removes@)[k] == m[2 * k + 1].1,
        decreases bs@.len() - j,
    {
        let body = copy_file(&bs[j].1);
        if j % 2 == 0 {
            let ghost a0 = adds@;
            adds.push(body);
            proof {
                assert forall|k: int| 0 <= k < adds@.len() implies #[trigger] contents_model(adds@)[k] == m[2 * k].1 by {
                    if k < a0.len() {
                        assert(adds@[k] == a0[k]);
                        assert(contents_model(a0)[k] == m[2 * k].1);
                    } else {
                        assert(2 * k == j);
                    }
                }
            }
        } else {
            let ghost r0 = removes@;
            removes.push(body);
            proof {
                assert forall|k: int| 0 <= k < removes@.len() implies #[trigger] contents_model(removes@)[k] == m[2 * k + 1].1 by {
                    if k < r0.len() {
                        assert(removes@[k] == r0[k]);
                        assert(contents_model(r0)[k] == m[2 * k + 1].1);
                    } else {
                        assert(2 * k + 1 == j);
                    }
                }
            }
        }
        j = j + 1;
    }
    let c = Conflict { removes, adds };
    proof {
        let r = interpret(m).unwrap();
        assert(r.0 =~= c.model().0);
        assert(r.1 =~= c.model().1);
    }
    Some(c)
}

/// Parses lines with markers of length `l` back into a conflict: `None` where
/// they do not render one.
pub fn parse_snapshot(lines: &Vec<Vec<char>>, l: usize) -> (r: Option<Conflict>)
    ensures
        match r {
            Some(c) => parsed(lines_model(lines@), l as nat) == Some(c.model()),
            None => parsed(lines_model(lines@), l as nat) is None,
        },
{
    let ghost lm = lines_model(lines@);
    let n = lines.len();
    if n < 2 {
        return None;
    }
    if !starts_with_run(&lines[0], '<', l) || !starts_with_run(&lines[n - 1], '>', l) {
        return None;
    }
    proof {
        assert(lm.subrange(1, lm.len() - 1) =~= lines_model(lines@.subrange(1, n - 1)));
    }
    match parse_block_lines(lines, 1, n - 1, l) {
        Some(bs) => interpret_blocks(&bs),
        None => None,
    }
}

/// Appends the lines, each with `c` in front.
fn push_prefixed(out: &mut Vec<Vec<char>>, c: char, body: &Vec<Vec<char>>, from: usize, to: usize)
    requires
        from <= to <= body@.len(),
    ensures
        lines_model(final(out)@) == lines_model(old(out)@) + prefixed(c, lines_model(body@.subrange(from as int, to as int))),
{
    let ghost start = lines_model(out@);
    assert(prefixed(c, lines_model(body@.subrange(from as int, from as int))) =~= Seq::<Seq<char>>::empty());
    assert(start + Seq::<Seq<char>>::empty() =~= start);
    let mut i: usize = from;
    while i < to
        invariant
            from <= i <= to <= body@.len(),
            lines_model(out@) == start + prefixed(c, lines_model(body@.subrange(from as int, i as int))),
        decreases to - i,
    {
        let mut line: Vec<char> = Vec::new();
        line.push(c);
        let src = &body[i];
        let mut k: usize = 0;
        while k < src.len()
            invariant
                k <= src@.len(),
                line@ == seq![c] + src@.subrange(0, k as int),
            decreases src@.len() - k,
        {
            line.push(src[k]);
            k = k + 1;
            assert(line@ =~= seq![c] + src@.subrange(0, k as int));
        }
        assert(src@.subrange(0, k as int) == src@);
        let ghost o0 = out@;
        out.push(line);
        proof {
            lemma_lines_push(o0, out@[o0.len() as int]);
            assert(body@.subrange(from as int, i + 1) == body@.subrange(from as int, i as int).push(body@[i as int]));
            lemma_lines_push(body@.subrange(from as int, i as int), body@[i as int]);
            assert(prefixed(c, lines_model(body@.subrange(from as int, i + 1))) =~= prefixed(c, lines_model(body@.subrange(from as int, i as int))).push(seq![c] + body@[i as int]@));
            assert(start + prefixed(c, lines_model(body@.subrange(from as int, i + 1))) =~= (start + prefixed(c, lines_model(body@.subrange(from as int, i as int)))).push(seq![c] + body@[i as int]@));
        }
        i = i + 1;
    }
}

/// Whether two lines are equal.
fn lines_equal(a: &Vec<char>, b: &Vec<char>) -> (r: bool)
    ensures
        r == (a@ == b@),
{
    if a.len() != b.len() {
        return false;
    }
    let mut i: usize = 0;
    while i < a.len()
        invariant
            i <= a@.len() == b@.len(),
            a@.subrange(0, i as int) == b@.subrange(0, i as int),
        decreases a@.len() - i,
    {
        if a[i] != b[i] {
            return false;
        }
        assert(a@.subrange(0, i + 1) == a@.subrange(0, i as int).push(a@[i as int]));
        assert(b@.subrange(0, i + 1) == b@.subrange(0, i as int).push(b@[i as int]));
        i = i + 1;
    }
    assert(a@ == a@.subrange(0, i as int));
    assert(b@ == b@.subrange(0, i as int));
    true
}

/// How many leading lines the files share.
fn common_prefix_len(b: &Vec<Vec<char>>, s: &Vec<Vec<char>>) -> (p: usize)
    ensures
        is_common_prefix(lines_model(b@), lines_model(s@), p as nat),
{
    let ghost bl = lines_model(b@);
    let ghost sl = lines_model(s@);
    let mut p: usize = 0;
    assert(bl.subrange(0, 0) =~= sl.subrange(0, 0));
    while p < b.len() && p < s.len() && lines_equal(&b[p], &s[p])
        invariant
            p <= b@.len() && p <= s@.len(),
            bl == lines_model(b@),
            sl == lines_model(s@),
            bl.subrange(0, p as int) == sl.subrange(0, p as int),
        decreases b@.len() - p,
    {
        assert(bl.subrange(0, p + 1) =~= bl.subrange(0, p as int).push(bl[p as int]));
        assert(sl.subrange(0, p + 1) =~= sl.subrange(0, p as int).push(sl[p as int]));
        p = p + 1;
    }
    p
}

/// How many trailing lines the files share after their first `p` lines.
fn common_suffix_len(b: &Vec<Vec<char>>, s: &Vec<Vec<char>>, p: usize) -> (q: usize)
    requires
        p <= b@.len() && p <= s@.len(),
    ensures
        is_common_suffix(lines_model(b@).subrange(p as int, b@.len() as int), lines_model(s@).subrange(p as int, s@.len() as int), q as nat),
{
    let ghost bm = lines_model(b@).subrange(p as int, b@.len() as int);
    let ghost sm = lines_model(s@).subrange(p as int, s@.len() as int);
    let nb = b.len() - p;
    let ns = s.len() - p;
    let mut q: usize = 0;
    assert(bm.subrange(bm.len() - 0, bm.len() as int) =~= sm.subrange(sm.len() - 0, sm.len() as int));
    while q < nb && q < ns && lines_equal(&b[b.len() - q - 1], &s[s.len() - q - 1])
        invariant
            bm == lines_model(b@).subrange(p as int, b@.len() as int),
            sm == lines_model(s@).subrange(p as int, s@.len() as int),
            nb == bm.len() && ns == sm.len(),
            nb + p == b@.len() && ns + p == s@.len(),
            q <= nb && q <= ns,
            bm.subrange(bm.len() - q, bm.len() as int) == sm.subrange(sm.len() - q, sm.len() as int),
        decreases nb - q,
    {
        proof {
            assert(bm[bm.len() - q - 1] == b@[b@.len() - q - 1]@);
            assert(sm[sm.len() - q - 1] == s@[s@.len() - q - 1]@);
            assert(bm.subrange(bm.len() - (q + 1), bm.len() as int) =~= seq![bm[bm.len() - q - 1]] + bm.subrange(bm.len() - q, bm.len() as int));
            assert(sm.subrange(sm.len() - (q + 1), sm.len() as int) =~= seq![sm[sm.len() - q - 1]] + sm.subrange(sm.len() - q, sm.len() as int));
        }
        q = q + 1;
    }
    proof {
        if q < nb && q < ns {
            assert(bm[bm.len() - q - 1] == b@[b@.len() - q - 1]@);
            assert(sm[sm.len() - q - 1] == s@[s@.len() - q - 1]@);
        }
    }
    q
}

/// Renders the conflict as lines with markers in the diff style; returns them
/// and the marker length.
pub fn materialize_diff(conflict: &Conflict) -> (r: (Vec<Vec<char>>, usize))
    requires
        conflict.adds@.len() == conflict.removes@.len() + 1,
        lines_fit(conflict.adds@),
        lines_fit(conflict.removes@),
    ensures
        r.1 >= MIN_MARKER_LEN,
        no_runs_in(conflict.model().0, (r.1 - 1) as nat),
        no_runs_in(conflict.model().1, (r.1 - 1) as nat),
        r.1 == MIN_MARKER_LEN || has_run(conflict.model().0, (r.1 - 2) as nat) || has_run(conflict.model().1, (r.1 - 2) as nat),
        lines_model(r.0@) == materialized_diff(conflict.model().0, conflict.model().1, r.1 as nat),
{
    let l = marker_len(conflict);
    let ghost adds = conflict.model().0;
    let ghost removes = conflict.model().1;
    let ghost bs = diff_blocks_of(adds, removes);
    let ghost labels = diff_labels(removes.len());
    let mut out: Vec<Vec<char>> = Vec::new();
    out.push(marker_line('<', l, &chars_of(" Conflict 1 of 1")));
    proof {
        lemma_lines_push(Seq::empty(), out@[0]);
        assert(out@ == Seq::<Vec<char>>::empty().push(out@[0]));
        assert(lines_model(Seq::<Vec<char>>::empty()) =~= Seq::<Seq<char>>::empty());
        assert(flatten(bs.subrange(0, 0), labels, l as nat) =~= Seq::<Seq<char>>::empty());
        assert(lines_model(out@) =~= seq![open_line(l as nat)] + flatten(bs.subrange(0, 0), labels, l as nat));
    }
    let n = conflict.removes.len();
    let mut i: usize = 0;
    while i < n
        invariant
            n == conflict.removes@.len(),
            conflict.adds@.len() == n + 1,
            i <= n,
            adds == conflict.model().0,
            removes == conflict.model().1,
            bs == diff_blocks_of(adds, removes),
            labels == diff_labels(removes.len()),
            lines_model(out@) == seq![open_line(l as nat)] + flatten(bs.subrange(0, i as int), labels, l as nat),
        decreases n - i,
    {
        let ghost before = lines_model(out@);
        let base = &conflict.removes[i];
        let side = &conflict.adds[i];
        let p = common_prefix_len(base, side);
        let q = common_suffix_len(base, side, p);
        push_block(&mut out, '%', &diff_label_of(n, i + 1), l, &Vec::new());
        let ghost after_header = lines_model(out@);
        push_prefixed(&mut out, ' ', base, 0, p);
        push_prefixed(&mut out, '-', base, p, base.len() - q);
        push_prefixed(&mut out, '+', side, p, side.len() - q);
        push_prefixed(&mut out, ' ', base, base.len() - q, base.len());
        proof {
            let bl = lines_model(base@);
            let sl = lines_model(side@);
            assert(bl == removes[i as int]);
            assert(sl == adds[i as int]);
            lemma_common_prefix_is(bl, sl, p as nat);
            let bm = bl.subrange(p as int, bl.len() as int);
            let sm = sl.subrange(p as int, sl.len() as int);
            lemma_common_suffix_is(bm, sm, q as nat);
            assert(lines_model(base@.subrange(0, p as int)) =~= bl.subrange(0, p as int));
            assert(lines_model(base@.subrange(p as int, base@.len() - q)) =~= bm.subrange(0, bm.len() - q));
            assert(lines_model(side@.subrange(p as int, side@.len() - q)) =~= sm.subrange(0, sm.len() - q));
            assert(lines_model(base@.subrange(base@.len() - q, base@.len() as int)) =~= bm.subrange(bm.len() - q, bm.len() as int));
            assert(lines_model(Seq::<Vec<char>>::empty()) =~= Seq::<Seq<char>>::empty());
            assert(after_header == before + seq![header_line('%', labels[i as int], l as nat)]) by {
                assert(labels[i as int] == diff_label(n as nat, (i + 1) as nat));
                assert(before + seq![header_line('%', labels[i as int], l as nat)] + Seq::<Seq<char>>::empty()
                    =~= before + seq![header_line('%', labels[i as int], l as nat)]);
            }
            assert(lines_model(out@) =~= after_header + diff_body(removes[i as int], adds[i as int]));
            assert(bs.subrange(0, i + 1).drop_last() == bs.subrange(0, i as int));
            assert(bs.subrange(0, i + 1).last() == bs[i as int]);
            assert(bs[i as int] == ('%', diff_body(removes[i as int], adds[i as int])));
            assert(lines_model(out@) =~= seq![open_line(l as nat)] + flatten(bs.subrange(0, i + 1), labels, l as nat));
        }
        i = i + 1;
    }
    let na = conflict.adds.len();
    push_block(&mut out, '+', &side_label_of(na), l, &conflict.adds[n]);
    proof {
        assert(labels[n as int] == side_label((n + 1) as nat));
        assert(bs.subrange(0, n + 1).drop_last() == bs.subrange(0, n as int));
        assert(bs.subrange(0, n + 1).last() == bs[n as int]);
        assert(adds[n as int] == lines_model(conflict.adds@[n as int]@));
        assert(bs.subrange(0, n + 1) == bs);
    }
    let ghost o0 = out@;
    out.push(marker_line('>', l, &chars_of(" Conflict 1 of 1 ends")));
    proof {
        lemma_lines_push(o0, out@[o0.len() as int]);
        assert(lines_model(out@) =~= materialized_diff(adds, removes, l as nat));
    }
    (out, l)
}

/// The lines that start with `c`, without it.
fn unprefix_lines(lines: &Vec<Vec<char>>, c: char) -> (r: Vec<Vec<char>>)
    ensures
        lines_model(r@) == unprefixed(c, lines_model(lines@)),
{
    let mut r: Vec<Vec<char>> = Vec::new();
    let mut i: usize = 0;
    assert(lines_model(lines@.subrange(0, 0)) =~= Seq::<Seq<char>>::empty());
    assert(lines_model(r@) =~= Seq::<Seq<char>>::empty());
    while i < lines.len()
        invariant
            i <= lines@.len(),
            lines_model(r@) == unprefixed(c, lines_model(lines@.subrange(0, i as int))),
        decreases lines@.len() - i,
    {
        let x = &lines[i];
        proof {
            lemma_lines_prefix(lines@, i as int);
            assert(lines_model(lines@.subrange(0, i + 1)).drop_last() == lines_model(lines@.subrange(0, i as int)));
            assert(lines_model(lines@.subrange(0, i + 1)).last() == x@);
        }
        if x.len() > 0 && (x[0] == c || x[0] == ' ') {
            let mut y: Vec<char> = Vec::new();
            let mut k: usize = 1;
            while k < x.len()
                invariant
                    1 <= k <= x@.len(),
                    y@ == x@.subrange(1, k as int),
                decreases x@.len() - k,
            {
                y.push(x[k]);
                k = k + 1;
                assert(y@ =~= x@.subrange(1, k as int));
            }
            let ghost r0 = r@;
            r.push(y);
            proof {
                lemma_lines_push(r0, r@[r0.len() as int]);
            }
        }
        i = i + 1;
    }
    assert(lines@.subrange(0, i as int) == lines@);
    r
}

/// The conflict that `%` blocks followed by one `+` block describe.
fn interpret_diff_blocks(bs: &Vec<(char, Vec<Vec<char>>)>) -> (r: Option<Conflict>)
    ensures
        match r {
            Some(c) => interpret_diff(blocks_model(bs@)) == Some(c.model()),
            None => interpret_diff(blocks_model(bs@)) is None,
        },
{
    let ghost m = blocks_model(bs@);
    let n = bs.len();
    if n == 0 || bs[n - 1].0 != '+' {
        return None;
    }
    let mut i: usize = 0;
    while i < n - 1
        invariant
            n == bs@.len() >= 1,
            i <= n - 1,
            m == blocks_model(bs@),
            forall|j: int| 0 <= j < i ==> (#[trigger] m[j]).0 == '%',
        decreases n - 1 - i,
    {
        if bs[i].0 != '%' {
            assert(m[i as int].0 != '%');
            return None;
        }
        i = i + 1;
    }
    let mut adds: Vec<Vec<Vec<char>>> = Vec::new();
    let mut removes: Vec<Vec<Vec<char>>> = Vec::new();
    let mut j: usize = 0;
    while j < n - 1
        invariant
            n == bs@.len() >= 1,
            j <= n - 1,
            m == blocks_model(bs@),
            adds@.len() == j,
            removes@.len() == j,
            forall|k: int| 0 <= k < j ==> #[trigger] contents_model(adds@)[k] == unprefixed('+', m[k].1),
            forall|k: int| 0 <= k < j ==> #[trigger] contents_model(removes@)[k] == unprefixed('-', m[k].1),
        decreases n - 1 - j,
    {
        let ghost a0 = adds@;
        let ghost r0 = removes@;
        adds.push(unprefix_lines(&bs[j].1, '+'));
        removes.push(unprefix_lines(&bs[j].1, '-'));
        proof {
            assert forall|k: int| 0 <= k < j + 1 implies #[trigger] contents_model(adds@)[k] == unprefixed('+', m[k].1) by {
                if k < j {
                    assert(adds@[k] == a0[k]);
                    assert(contents_model(a0)[k] == unprefixed('+', m[k].1));
                }
            }
            assert forall|k: int| 0 <= k < j + 1 implies #[trigger] contents_model(removes@)[k] == unprefixed('-', m[k].1) by {
                if k < j {
                    assert(removes@[k] == r0[k]);
                    assert(contents_model(r0)[k] == unprefixed('-', m[k].1));
                }
            }
        }
        j = j + 1;
    }
    let ghost a0 = adds@;
    adds.push(copy_file(&bs[n - 1].1));
    let c = Conflict { removes, adds };
    proof {
        assert(m.last() == m[n - 1]);
        let r = interpret_diff(m).unwrap();
        assert forall|k: int| 0 <= k < n implies r.0[k] == c.model().0[k] by {
            if k < n - 1 {
                assert(c.adds@[k] == a0[k]);
                assert(contents_model(a0)[k] == unprefixed('+', m[k].1));
            }
        }
        assert(r.0 =~= c.model().0);
        assert(r.1 =~= c.model().1);
    }
    Some(c)
}

/// Parses lines with diff-style markers of length `l` back into a conflict:
/// `None` where they do not render one.
pub fn parse_diff(lines: &Vec<Vec<char>>, l: usize) -> (r: Option<Conflict>)
    ensures
        match r {
            Some(c) => parsed_diff(lines_model(lines@), l as nat) == Some(c.model()),
            None => parsed_diff(lines_model(lines@), l as nat) is None,
        },
{
    let ghost lm = lines_model(lines@);
    let n = lines.len();
    if n < 2 {
        return None;
    }
    if !starts_with_run(&lines[0], '<', l) || !starts_with_run(&lines[n - 1], '>', l) {
        return None;
    }
    proof {
        assert(lm.subrange(1, lm.len() - 1) =~= lines_model(lines@.subrange(1, n - 1)));
    }
    match parse_block_lines(lines, 1, n - 1, l) {
        Some(bs) => interpret_diff_blocks(&bs),
        None => None,
    }
}

/// How a conflict is rendered.
#[derive(Clone, Copy, Debug, PartialEq, Eq, Structural)]
pub enum ConflictMarkerStyle {
    /// Each base with the next side as one diff block, then the last side.
    Diff,
    /// Every side and base in full.
    Snapshot,
    /// Two sides around their base, as git writes them.
    Git,
}

/// The lines of the conflict rendered in the style with markers of length `l`.
pub open spec fn materialized_in(style: ConflictMarkerStyle, adds: Seq<Seq<Seq<char>>>, removes: Seq<Seq<Seq<char>>>, l: nat) -> Seq<Seq<char>> {
    match style {
        ConflictMarkerStyle::Diff => materialized_diff(adds, removes, l),
        ConflictMarkerStyle::Snapshot => materialized(adds, removes, l),
        ConflictMarkerStyle::Git => materialized_git(adds, removes, l),
    }
}

/// The conflict the lines render in the style, if any.
pub open spec fn parsed_in(style: ConflictMarkerStyle, lines: Seq<Seq<char>>, l: nat) -> Option<(Seq<Seq<Seq<char>>>, Seq<Seq<Seq<char>>>)> {
    match style {
        ConflictMarkerStyle::Diff => parsed_diff(lines, l),
        ConflictMarkerStyle::Snapshot => parsed(lines, l),
        ConflictMarkerStyle::Git => parsed_git(lines, l),
    }
}

/// Renders the conflict in the style (the git style takes two sides only);
/// returns the lines and the marker length, which parsing them back needs:
/// the minimum, or two more than the longest run of a marker character that
/// starts a line of the conflict, whichever is larger.
pub fn materialize(conflict: &Conflict, style: ConflictMarkerStyle) -> (r: (Vec<Vec<char>>, usize))
    requires
        conflict.adds@.len() == conflict.removes@.len() + 1,
        style == ConflictMarkerStyle::Git ==> conflict.adds@.len() == 2,
        lines_fit(conflict.adds@),
        lines_fit(conflict.removes@),
    ensures
        r.1 >= MIN_MARKER_LEN,
        no_runs_in(conflict.model().0, (r.1 - 1) as nat),
        no_runs_in(conflict.model().1, (r.1 - 1) as nat),
        r.1 == MIN_MARKER_LEN || has_run(conflict.model().0, (r.1 - 2) as nat) || has_run(conflict.model().1, (r.1 - 2) as nat),
        lines_model(r.0@) == materialized_in(style, conflict.model().0, conflict.model().1, r.1 as nat),
        parsed_in(style, lines_model(r.0@), r.1 as nat) == Some(conflict.model()),
{
    match style {
        ConflictMarkerStyle::Diff => {
            let r = materialize_diff(conflict);
            proof {
                lemma_materialize_parse_diff_round_trip(conflict.model().0, conflict.model().1, r.1 as nat);
            }
            r
        },
        ConflictMarkerStyle::Snapshot => {
            let r = materialize_snapshot(conflict);
            proof {
                lemma_materialize_parse_round_trip(conflict.model().0, conflict.model().1, r.1 as nat);
            }
            r
        },
        ConflictMarkerStyle::Git => {
            let r = materialize_git(conflict);
            proof {
                lemma_materialize_parse_git_round_trip(conflict.model().0, conflict.model().1, r.1 as nat);
            }
            r
        },
    }
}

/// Renders a two-sided conflict in the git style; returns the lines and the
/// marker length.
pub fn materialize_git(conflict: &Conflict) -> (r: (Vec<Vec<char>>, usize))
    requires
        conflict.adds@.len() == 2,
        conflict.removes@.len() == 1,
        lines_fit(conflict.adds@),
        lines_fit(conflict.removes@),
    ensures
        r.1 >= MIN_MARKER_LEN,
        no_runs_in(conflict.model().0, (r.1 - 1) as nat),
        no_runs_in(conflict.model().1, (r.1 - 1) as nat),
        no_markers_in(conflict.model().0, r.1 as nat),
        no_markers_in(conflict.model().1, r.1 as nat),
        r.1 == MIN_MARKER_LEN || has_run(conflict.model().0, (r.1 - 2) as nat) || has_run(conflict.model().1, (r.1 - 2) as nat),
        lines_model(r.0@) == materialized_git(conflict.model().0, conflict.model().1, r.1 as nat),
{
    let l = marker_len(conflict);
    let ghost adds = conflict.model().0;
    let ghost removes = conflict.model().1;
    let ghost bs = git_blocks_of(adds, removes);
    let ghost labels = git_labels();
    let mut out: Vec<Vec<char>> = Vec::new();
    proof {
        assert(lines_model(out@) =~= flatten(bs.subrange(0, 0), labels, l as nat));
    }
    push_block(&mut out, '<', &chars_of(" Side #1 (Conflict 1 of 1)"), l, &conflict.adds[0]);
    proof {
        assert(bs.subrange(0, 1).drop_last() =~= bs.subrange(0, 0));
        assert(adds[0] == lines_model(conflict.adds@[0]@));
        assert(lines_model(out@) =~= flatten(bs.subrange(0, 1), labels, l as nat));
    }
    push_block(&mut out, '|', &chars_of(" Base"), l, &conflict.removes[0]);
    proof {
        assert(bs.subrange(0, 2).drop_last() =~= bs.subrange(0, 1));
        assert(removes[0] == lines_model(conflict.removes@[0]@));
        assert(lines_model(out@) =~= flatten(bs.subrange(0, 2), labels, l as nat));
    }
    push_block(&mut out, '=', &Vec::new(), l, &conflict.adds[1]);
    proof {
        assert(bs.subrange(0, 3).drop_last() =~= bs.subrange(0, 2));
        assert(adds[1] == lines_model(conflict.adds@[1]@));
        assert(labels[2] =~= Seq::<char>::empty());
        assert(bs.subrange(0, 3) =~= bs);
        assert(lines_model(out@) =~= flatten(bs, labels, l as nat));
    }
    let ghost o0 = out@;
    out.push(marker_line('>', l, &chars_of(" Side #2 (Conflict 1 of 1 ends)")));
    proof {
        lemma_lines_push(o0, out@[o0.len() as int]);
        assert(lines_model(out@) =~= materialized_git(adds, removes, l as nat));
    }
    (out, l)
}

/// Parses lines rendered in the git style with markers of length `l`.
pub fn parse_git(lines: &Vec<Vec<char>>, l: usize) -> (r: Option<Conflict>)
    ensures
        match r {
            Some(c) => parsed_git(lines_model(lines@), l as nat) == Some(c.model()),
            None => parsed_git(lines_model(lines@), l as nat) is None,
        },
{
    let ghost lm = lines_model(lines@);
    let n = lines.len();
    if n < 1 || !starts_with_run(&lines[n - 1], '>', l) {
        return None;
    }
    proof {
        assert(lm.drop_last() =~= lines_model(lines@.subrange(0, n - 1)));
    }
    match parse_block_lines(lines, 0, n - 1, l) {
        Some(bs) => {
            let ghost m = blocks_model(bs@);
            if bs.len() == 3 && bs[0].0 == '<' && bs[1].0 == '|' && bs[2].0 == '=' {
                let mut adds: Vec<Vec<Vec<char>>> = Vec::new();
                adds.push(copy_file(&bs[0].1));
                adds.push(copy_file(&bs[2].1));
                let mut removes: Vec<Vec<Vec<char>>> = Vec::new();
                removes.push(copy_file(&bs[1].1));
                let c = Conflict { removes, adds };
                proof {
                    assert(c.model().0 =~= seq![m[0].1, m[2].1]);
                    assert(c.model().1 =~= seq![m[1].1]);
                }
                Some(c)
            } else {
                proof {
                    if m.len() == 3 {
                        assert(m[0].0 == bs@[0].0);
                        assert(m[1].0 == bs@[1].0);
                        assert(m[2].0 == bs@[2].0);
                    }
                }
                None
            }
        },
        None => None,
    }
}

/// Parses lines rendered in the style with markers of length `l`.
pub fn parse(lines: &Vec<Vec<char>>, l: usize, style: ConflictMarkerStyle) -> (r: Option<Conflict>)
    ensures
        match r {
            Some(c) => parsed_in(style, lines_model(lines@), l as nat) == Some(c.model()),
            None => parsed_in(style, lines_model(lines@), l as nat) is None,
        },
{
    match style {
        ConflictMarkerStyle::Diff => parse_diff(lines, l),
        ConflictMarkerStyle::Snapshot => parse_snapshot(lines, l),
        ConflictMarkerStyle::Git => parse_git(lines, l),
    }
}

/// What the output of a merge tool resolves to.
pub enum Resolution {
    /// The file's contents.
    Resolved(Vec<Vec<char>>),
    /// A conflict left in the file as markers.
    Conflicted(Conflict),
}

/// Reads the output of a merge tool. A tool that edits conflict markers may
/// leave some: output that parses as a conflict stays one. Otherwise the
/// output is the resolved contents.
pub fn resolve_tool_output(output: &Vec<Vec<char>>, tool_edits_markers: bool, l: usize, style: ConflictMarkerStyle) -> (r: Resolution)
    ensures
        match r {
            Resolution::Resolved(f) => lines_model(f@) == lines_model(output@)
                && (tool_edits_markers ==> parsed_in(style, lines_model(output@), l as nat) is None),
            Resolution::Conflicted(c) => tool_edits_markers && parsed_in(style, lines_model(output@), l as nat) == Some(c.model()),
        },
{
    if tool_edits_markers {
        match parse(output, l, style) {
            Some(c) => Resolution::Conflicted(c),
            None => Resolution::Resolved(copy_file(output)),
        }
    } else {
        Resolution::Resolved(copy_file(output))
    }
}

} // verus!
