use crate::load::{
    block_text, blocks_text, count_blocks, first_named, plan_of_text, read_blocks, read_turns,
    schedule_text, turns_text,
};
use crate::sched::{
    cycle_of, has_street, lemma_prefix_time_monotone, lemma_prefix_time_prefix, prefix_time,
    Schedule,
};
use crate::text::{
    decimal_of, is_digit, is_ws, lemma_decimal_digits, lemma_decimal_round_trip, line_fold,
    lines_of, strip_cr, token_fold, tokens_of, u32_of,
};
use crate::{IntersectionId, Simulation, StreetId, Time};
use vstd::prelude::*;

verus! {

/// The lines `ls`, each followed by a newline.
pub open spec fn join_lines(ls: Seq<Seq<char>>) -> Seq<char>
    decreases ls.len(),
{
    if ls.len() == 0 {
        Seq::empty()
    } else {
        join_lines(ls.drop_last()) + ls.last() + seq!['\n']
    }
}

/// A line that holds no newline and does not end with a carriage return.
pub open spec fn plain_line(l: Seq<char>) -> bool {
    &&& forall|i: int| 0 <= i < l.len() ==> #[trigger] l[i] != '\n'
    &&& l.len() > 0 ==> l.last() != '\r'
}

proof fn lemma_line_fold_prefix(s1: Seq<char>, s2: Seq<char>, n: int)
    requires
        0 <= n <= s1.len(),
        n <= s2.len(),
        s1.subrange(0, n) == s2.subrange(0, n),
    ensures
        line_fold(s1, n) == line_fold(s2, n),
    decreases n,
{
    if n > 0 {
        assert(s1.subrange(0, n - 1) =~= s1.subrange(0, n).subrange(0, n - 1));
        assert(s2.subrange(0, n - 1) =~= s2.subrange(0, n).subrange(0, n - 1));
        assert(s1[n - 1] == s1.subrange(0, n)[n - 1]);
        assert(s2[n - 1] == s2.subrange(0, n)[n - 1]);
        lemma_line_fold_prefix(s1, s2, n - 1);
    }
}

proof fn lemma_line_fold_within(base: Seq<char>, l: Seq<char>, done: Seq<Seq<char>>, i: int)
    requires
        plain_line(l),
        line_fold(base, base.len() as int) == (done, Seq::<char>::empty()),
        0 <= i <= l.len(),
    ensures
        line_fold(base + l + seq!['\n'], base.len() + i) == (done, l.subrange(0, i)),
    decreases i,
{
    let s = base + l + seq!['\n'];
    if i == 0 {
        assert(base.subrange(0, base.len() as int) =~= s.subrange(0, base.len() as int));
        lemma_line_fold_prefix(base, s, base.len() as int);
        assert(l.subrange(0, 0) =~= Seq::<char>::empty());
    } else {
        lemma_line_fold_within(base, l, done, i - 1);
        assert(s[base.len() + i - 1] == l[i - 1]);
        assert(l.subrange(0, i) =~= l.subrange(0, i - 1).push(l[i - 1]));
    }
}

/// Reading back lines joined by newlines gives the lines.
pub proof fn lemma_lines_of_join(ls: Seq<Seq<char>>)
    requires
        forall|i: int| 0 <= i < ls.len() ==> plain_line(#[trigger] ls[i]),
    ensures
        line_fold(join_lines(ls), join_lines(ls).len() as int) == (ls, Seq::<char>::empty()),
        lines_of(join_lines(ls)) == ls,
    decreases ls.len(),
{
    if ls.len() > 0 {
        let prev = ls.drop_last();
        let l = ls.last();
        assert(plain_line(ls[ls.len() - 1]));
        assert forall|i: int| 0 <= i < prev.len() implies plain_line(#[trigger] prev[i]) by {
            assert(prev[i] == ls[i]);
        }
        lemma_lines_of_join(prev);
        let base = join_lines(prev);
        lemma_line_fold_within(base, l, prev, l.len() as int);
        let s = base + l + seq!['\n'];
        assert(s == join_lines(ls));
        assert(l.subrange(0, l.len() as int) =~= l);
        assert(s[s.len() - 1] == '\n');
        assert(strip_cr(l) == l);
        assert(prev.push(l) =~= ls);
    }
}

/// The words of a line joined by single spaces.
pub open spec fn join_words(ws: Seq<Seq<char>>) -> Seq<char>
    decreases ws.len(),
{
    if ws.len() == 0 {
        Seq::empty()
    } else if ws.len() == 1 {
        ws[0]
    } else {
        join_words(ws.drop_last()) + seq![' '] + ws.last()
    }
}

/// A word: at least one character, none of them whitespace.
pub open spec fn plain_word(w: Seq<char>) -> bool {
    &&& w.len() > 0
    &&& forall|i: int| 0 <= i < w.len() ==> !is_ws(#[trigger] w[i])
}

proof fn lemma_token_fold_prefix(s1: Seq<char>, s2: Seq<char>, n: int)
    requires
        0 <= n <= s1.len(),
        n <= s2.len(),
        s1.subrange(0, n) == s2.subrange(0, n),
    ensures
        token_fold(s1, n) == token_fold(s2, n),
    decreases n,
{
    if n > 0 {
        assert(s1.subrange(0, n - 1) =~= s1.subrange(0, n).subrange(0, n - 1));
        assert(s2.subrange(0, n - 1) =~= s2.subrange(0, n).subrange(0, n - 1));
        assert(s1[n - 1] == s1.subrange(0, n)[n - 1]);
        assert(s2[n - 1] == s2.subrange(0, n)[n - 1]);
        lemma_token_fold_prefix(s1, s2, n - 1);
    }
}

proof fn lemma_token_fold_word(base: Seq<char>, w: Seq<char>, done: Seq<Seq<char>>, i: int)
    requires
        plain_word(w),
        token_fold(base, base.len() as int) == (done, Seq::<char>::empty()),
        0 <= i <= w.len(),
    ensures
        token_fold(base + w, base.len() + i) == (done, w.subrange(0, i)),
    decreases i,
{
    let s = base + w;
    if i == 0 {
        assert(base.subrange(0, base.len() as int) =~= s.subrange(0, base.len() as int));
        lemma_token_fold_prefix(base, s, base.len() as int);
        assert(w.subrange(0, 0) =~= Seq::<char>::empty());
    } else {
        lemma_token_fold_word(base, w, done, i - 1);
        assert(s[base.len() + i - 1] == w[i - 1]);
        assert(w.subrange(0, i) =~= w.subrange(0, i - 1).push(w[i - 1]));
    }
}

/// Reading the words back from words joined by spaces gives the words.
pub proof fn lemma_tokens_of_join(ws: Seq<Seq<char>>)
    requires
        ws.len() > 0,
        forall|i: int| 0 <= i < ws.len() ==> plain_word(#[trigger] ws[i]),
    ensures
        token_fold(join_words(ws), join_words(ws).len() as int) == (
            ws.drop_last(),
            ws.last(),
        ),
        tokens_of(join_words(ws)) == ws,
    decreases ws.len(),
{
    let w = ws.last();
    assert(plain_word(ws[ws.len() - 1]));
    if ws.len() == 1 {
        lemma_token_fold_word(Seq::empty(), w, Seq::empty(), w.len() as int);
        assert(Seq::<char>::empty() + w =~= w);
        assert(w.subrange(0, w.len() as int) =~= w);
        assert(ws.drop_last() =~= Seq::<Seq<char>>::empty());
        assert(token_fold(Seq::<char>::empty(), 0) == (
            Seq::<Seq<char>>::empty(),
            Seq::<char>::empty(),
        ));
        assert(seq![w] =~= ws);
        assert(Seq::<Seq<char>>::empty().push(w) =~= ws);
    } else {
        let prev = ws.drop_last();
        assert forall|i: int| 0 <= i < prev.len() implies plain_word(#[trigger] prev[i]) by {
            assert(prev[i] == ws[i]);
        }
        lemma_tokens_of_join(prev);
        let base = join_words(prev) + seq![' '];
        assert(plain_word(prev[prev.len() - 1]));
        assert(prev.last().len() > 0);
        assert(join_words(prev).subrange(0, join_words(prev).len() as int) =~= base.subrange(
            0,
            join_words(prev).len() as int,
        ));
        lemma_token_fold_prefix(join_words(prev), base, join_words(prev).len() as int);
        assert(base[base.len() - 1] == ' ');
        assert(prev.drop_last().push(prev.last()) =~= prev);
        assert(token_fold(base, base.len() as int) == (prev, Seq::<char>::empty()));
        lemma_token_fold_word(base, w, prev, w.len() as int);
        assert(w.subrange(0, w.len() as int) =~= w);
        assert(base + w == join_words(ws));
        assert(prev.push(w) =~= ws);
    }
}


/// The line `name green_time` of a phase.
pub open spec fn street_line(sim: &Simulation, p: (StreetId, Time)) -> Seq<char> {
    sim.streets@[p.0 as int].name@ + seq![' '] + decimal_of(p.1 as nat)
}

/// The lines of the phases `turns[..n]`.
pub open spec fn turn_lines(sim: &Simulation, turns: Seq<(StreetId, Time)>, n: int) -> Seq<
    Seq<char>,
>
    decreases n,
{
    if n <= 0 {
        Seq::empty()
    } else {
        turn_lines(sim, turns, n - 1).push(street_line(sim, turns[n - 1]))
    }
}

/// The lines of the block of intersection `id`.
pub open spec fn block_lines(sched: &Schedule, id: IntersectionId) -> Seq<Seq<char>> {
    let t = sched.turns_at(id);
    seq![decimal_of(id as nat), decimal_of(t.len())] + turn_lines(
        sched.simulation,
        t,
        t.len() as int,
    )
}

/// The lines of the blocks of the intersections `m..n` that have phases.
pub open spec fn blocks_lines_from(sched: &Schedule, m: int, n: int) -> Seq<Seq<char>>
    decreases n - m,
{
    if n <= m {
        Seq::empty()
    } else if sched.turns_at((n - 1) as IntersectionId).len() > 0 {
        blocks_lines_from(sched, m, n - 1) + block_lines(sched, (n - 1) as IntersectionId)
    } else {
        blocks_lines_from(sched, m, n - 1)
    }
}

/// The lines of a schedule text.
pub open spec fn text_lines(sched: &Schedule) -> Seq<Seq<char>> {
    let n = sched.simulation.num_intersections as int;
    seq![decimal_of(count_blocks(sched, n) as nat)] + blocks_lines_from(sched, 0, n)
}

/// The plan of the intersections `0..m` that have phases.
pub open spec fn plan_upto(sched: &Schedule, m: int) -> Map<IntersectionId, Seq<(StreetId, Time)>> {
    Map::new(
        |k: IntersectionId| (k as int) < m && sched.turns_at(k).len() > 0,
        |k: IntersectionId| sched.turns_at(k),
    )
}

/// Every street name is a word, and no two streets share one.
pub open spec fn names_plain_and_distinct(sim: &Simulation) -> bool {
    &&& forall|j: int| 0 <= j < sim.streets@.len() ==> plain_word(#[trigger] sim.streets@[j].name@)
    &&& forall|i: int, j: int|
        0 <= i < sim.streets@.len() && 0 <= j < sim.streets@.len() && i != j
            ==> #[trigger] sim.streets@[i].name@ != #[trigger] sim.streets@[j].name@
}

proof fn lemma_join_concat(a: Seq<Seq<char>>, b: Seq<Seq<char>>)
    ensures
        join_lines(a + b) == join_lines(a) + join_lines(b),
    decreases b.len(),
{
    if b.len() == 0 {
        assert(a + b =~= a);
        assert(join_lines(a) + join_lines(b) =~= join_lines(a));
    } else {
        lemma_join_concat(a, b.drop_last());
        assert((a + b).drop_last() =~= a + b.drop_last());
        assert(join_lines(a + b) =~= join_lines(a) + join_lines(b));
    }
}

proof fn lemma_turns_text(sim: &Simulation, t: Seq<(StreetId, Time)>, n: int)
    requires
        n >= 0,
    ensures
        turns_text(sim, t, n) == join_lines(turn_lines(sim, t, n)),
    decreases n,
{
    if n > 0 {
        lemma_turns_text(sim, t, n - 1);
        assert(turn_lines(sim, t, n).drop_last() =~= turn_lines(sim, t, n - 1));
        assert(turns_text(sim, t, n) =~= join_lines(turn_lines(sim, t, n)));
    }
}

proof fn lemma_block_text(sched: &Schedule, id: IntersectionId)
    ensures
        block_text(sched, id) == join_lines(block_lines(sched, id)),
{
    let t = sched.turns_at(id);
    let head = seq![decimal_of(id as nat), decimal_of(t.len())];
    lemma_join_concat(head, turn_lines(sched.simulation, t, t.len() as int));
    lemma_turns_text(sched.simulation, t, t.len() as int);
    let one = seq![decimal_of(id as nat)];
    assert(head.drop_last() =~= one);
    assert(one.drop_last() =~= Seq::<Seq<char>>::empty());
    assert(join_lines(one) == join_lines(one.drop_last()) + one.last() + seq!['\n']);
    assert(join_lines(head) == join_lines(head.drop_last()) + head.last() + seq!['\n']);
    assert(join_lines(Seq::<Seq<char>>::empty()) == Seq::<char>::empty());
    assert(block_text(sched, id) =~= join_lines(block_lines(sched, id)));
}

proof fn lemma_blocks_text(sched: &Schedule, n: int)
    requires
        n >= 0,
    ensures
        blocks_text(sched, n) == join_lines(blocks_lines_from(sched, 0, n)),
    decreases n,
{
    if n > 0 {
        lemma_blocks_text(sched, n - 1);
        if sched.turns_at((n - 1) as IntersectionId).len() > 0 {
            lemma_block_text(sched, (n - 1) as IntersectionId);
            lemma_join_concat(
                blocks_lines_from(sched, 0, n - 1),
                block_lines(sched, (n - 1) as IntersectionId),
            );
        }
    }
}

/// Splits the blocks of `m..n` after the block of `m`.
proof fn lemma_blocks_split(sched: &Schedule, m: int, n: int)
    requires
        0 <= m < n,
    ensures
        blocks_lines_from(sched, m, n) == (if sched.turns_at(m as IntersectionId).len() > 0 {
            block_lines(sched, m as IntersectionId)
        } else {
            Seq::empty()
        }) + blocks_lines_from(sched, m + 1, n),
        blocks_lines_from(sched, 0, n) == blocks_lines_from(sched, 0, m) + blocks_lines_from(
            sched,
            m,
            n,
        ),
    decreases n - m,
{
    if n == m + 1 {
        assert(blocks_lines_from(sched, m, m) =~= Seq::<Seq<char>>::empty());
        assert(blocks_lines_from(sched, m + 1, n) =~= Seq::<Seq<char>>::empty());
        assert(blocks_lines_from(sched, m, n) =~= (if sched.turns_at(m as IntersectionId).len()
            > 0 {
            block_lines(sched, m as IntersectionId)
        } else {
            Seq::empty()
        }) + blocks_lines_from(sched, m + 1, n));
        lemma_blocks_prefix(sched, m, n);
    } else {
        lemma_blocks_split(sched, m, n - 1);
        lemma_blocks_prefix(sched, m, n);
        if sched.turns_at((n - 1) as IntersectionId).len() > 0 {
            assert(blocks_lines_from(sched, m, n) =~= (if sched.turns_at(m as IntersectionId).len()
                > 0 {
                block_lines(sched, m as IntersectionId)
            } else {
                Seq::empty()
            }) + blocks_lines_from(sched, m + 1, n));
        }
    }
}

proof fn lemma_blocks_prefix(sched: &Schedule, m: int, n: int)
    requires
        0 <= m <= n,
    ensures
        blocks_lines_from(sched, 0, n) == blocks_lines_from(sched, 0, m) + blocks_lines_from(
            sched,
            m,
            n,
        ),
    decreases n - m,
{
    if n == m {
        assert(blocks_lines_from(sched, 0, n) + blocks_lines_from(sched, m, n) =~= blocks_lines_from(
            sched,
            0,
            n,
        ));
    } else {
        lemma_blocks_prefix(sched, m, n - 1);
        if sched.turns_at((n - 1) as IntersectionId).len() > 0 {
            assert(blocks_lines_from(sched, 0, n) =~= blocks_lines_from(sched, 0, m)
                + blocks_lines_from(sched, m, n));
        }
    }
}

proof fn lemma_decimal_plain(n: nat)
    ensures
        plain_line(decimal_of(n)),
        decimal_of(n).len() > 0,
        is_digit(decimal_of(n).last()),
{
    lemma_decimal_digits(n);
    let d = decimal_of(n);
    assert(is_digit(d[d.len() - 1]));
    assert forall|i: int| 0 <= i < d.len() implies #[trigger] d[i] != '\n' by {
        assert(is_digit(d[i]));
    }
}

proof fn lemma_street_line(sim: &Simulation, p: (StreetId, Time))
    requires
        names_plain_and_distinct(sim),
        (p.0 as int) < sim.streets@.len(),
    ensures
        plain_line(street_line(sim, p)),
        tokens_of(street_line(sim, p)) == seq![sim.streets@[p.0 as int].name@, decimal_of(p.1 as nat)],
{
    let name = sim.streets@[p.0 as int].name@;
    let d = decimal_of(p.1 as nat);
    lemma_decimal_plain(p.1 as nat);
    lemma_decimal_digits(p.1 as nat);
    assert(plain_word(name));
    let ws = seq![name, d];
    assert(plain_word(d)) by {
        assert forall|i: int| 0 <= i < d.len() implies !is_ws(#[trigger] d[i]) by {
            assert(is_digit(d[i]));
        }
    }
    assert forall|i: int| 0 <= i < ws.len() implies plain_word(#[trigger] ws[i]) by {}
    assert(ws.drop_last() =~= seq![name]);
    assert(join_words(seq![name]) == name);
    assert(join_words(ws) == join_words(ws.drop_last()) + seq![' '] + ws.last());
    assert(join_words(ws) =~= street_line(sim, p));
    lemma_tokens_of_join(ws);
    let l = street_line(sim, p);
    assert forall|i: int| 0 <= i < l.len() implies #[trigger] l[i] != '\n' by {
        if i < name.len() {
            assert(l[i] == name[i]);
            assert(!is_ws(name[i]));
        } else if i > name.len() {
            assert(l[i] == d[i - name.len() - 1]);
            assert(is_digit(d[i - name.len() - 1]));
        }
    }
    assert(l.last() == d.last());
}

/// The phases of a block are read back from their lines.
proof fn lemma_read_turns(
    sched: &Schedule,
    ls: Seq<Seq<char>>,
    pos: int,
    t: Seq<(StreetId, Time)>,
    k: int,
)
    requires
        sched.wf(),
        names_plain_and_distinct(sched.simulation),
        exists|id: IntersectionId| sched.intersections@.contains_key(id) && #[trigger] sched.intersections@[id].turns@ == t,
        0 <= k <= t.len(),
        pos >= 0,
        pos + t.len() <= ls.len(),
        forall|i: int| 0 <= i < t.len() ==> ls[pos + i] == #[trigger] street_line(sched.simulation, t[i]),
    ensures
        read_turns(sched.simulation, ls, pos + k, t.len() - k, t.subrange(0, k)) == Some(t),
    decreases t.len() - k,
{
    let sim = sched.simulation;
    let id = choose|id: IntersectionId| sched.intersections@.contains_key(id) && #[trigger] sched.intersections@[id].turns@ == t;
    let inter = sched.intersections@[id];
    assert(inter.wf());
    if k == t.len() {
        assert(t.subrange(0, k) =~= t);
    } else {
        let p = t[k];
        assert(p.0 < sim.streets@.len());
        lemma_street_line(sim, p);
        assert(ls[pos + k] == street_line(sim, p));
        let name = sim.streets@[p.0 as int].name@;
        lemma_decimal_round_trip(p.1);
        assert(first_named(sim, name) == Some(p.0)) by {
            assert(sim.streets@[p.0 as int].name@ == name);
            let w = choose|j: int|
                0 <= j < sim.streets@.len() && sim.streets@[j].name@ == name && forall|j2: int|
                    0 <= j2 < j ==> sim.streets@[j2].name@ != name;
            if w != p.0 {
                assert(sim.streets@[w].name@ != sim.streets@[p.0 as int].name@);
            }
        }
        let acc = t.subrange(0, k);
        assert(!has_street(acc, p.0)) by {
            if has_street(acc, p.0) {
                let w = choose|w: int| 0 <= w < acc.len() && acc[w].0 == p.0;
                assert(t[w].0 == t[k].0);
            }
        }
        assert(cycle_of(acc) + p.1 <= u32::MAX) by {
            lemma_prefix_time_prefix(t, acc, k);
            assert(prefix_time(t, k + 1) == prefix_time(t, k) + p.1);
            lemma_prefix_time_monotone(t, k + 1, t.len() as int);
        }
        assert(acc.push(p) =~= t.subrange(0, k + 1));
        lemma_read_turns(sched, ls, pos, t, k + 1);
    }
}

proof fn lemma_len_le_cycle(t: Seq<(StreetId, Time)>, n: int)
    requires
        0 <= n <= t.len(),
        forall|i: int| 0 <= i < t.len() ==> #[trigger] t[i].1 >= 1,
    ensures
        prefix_time(t, n) >= n,
    decreases n,
{
    if n > 0 {
        lemma_len_le_cycle(t, n - 1);
    }
}

proof fn lemma_count_blocks_le(sched: &Schedule, n: int)
    requires
        n >= 0,
    ensures
        0 <= count_blocks(sched, n) <= n,
    decreases n,
{
    if n > 0 {
        lemma_count_blocks_le(sched, n - 1);
    }
}

/// The blocks of `m..n` are read back into the plan of those intersections.
proof fn lemma_read_blocks(sched: &Schedule, m: int)
    requires
        sched.wf(),
        names_plain_and_distinct(sched.simulation),
        0 <= m <= sched.simulation.num_intersections,
    ensures
        ({
            let n = sched.simulation.num_intersections as int;
            let ls = text_lines(sched);
            read_blocks(
                sched.simulation,
                ls,
                1 + blocks_lines_from(sched, 0, m).len() as int,
                count_blocks(sched, n) - count_blocks(sched, m),
                plan_upto(sched, m),
            ) == Some(plan_upto(sched, n))
        }),
    decreases sched.simulation.num_intersections - m,
{
    let sim = sched.simulation;
    let n = sim.num_intersections as int;
    let ls = text_lines(sched);
    lemma_count_blocks_monotone(sched, m, n);
    if m == n {
    } else {
        lemma_count_blocks_monotone(sched, m + 1, n);
        lemma_read_blocks(sched, m + 1);
        lemma_blocks_split(sched, m, n);
        lemma_blocks_prefix(sched, m + 1, n);
        let id = m as IntersectionId;
        let t = sched.turns_at(id);
        let pos = 1 + blocks_lines_from(sched, 0, m).len() as int;
        if t.len() > 0 {
            let b = block_lines(sched, id);
            let rest = blocks_lines_from(sched, m + 1, n);
            assert(ls =~= seq![decimal_of(count_blocks(sched, n) as nat)] + blocks_lines_from(
                sched,
                0,
                m,
            ) + b + rest);
            assert(blocks_lines_from(sched, 0, m + 1) =~= blocks_lines_from(sched, 0, m) + b);
            assert(sched.intersections@.contains_key(id));
            let inter = sched.intersections@[id];
            assert(inter.wf());
            lemma_len_le_cycle(t, t.len() as int);
            lemma_decimal_round_trip(id);
            lemma_decimal_round_trip(t.len() as u32);
            assert(ls[pos] == decimal_of(id as nat));
            assert(ls[pos + 1] == decimal_of(t.len()));
            assert(turn_lines(sim, t, t.len() as int).len() == t.len()) by {
                lemma_turn_lines_len(sim, t, t.len() as int);
            }
            assert forall|i: int| 0 <= i < t.len() implies ls[pos + 2 + i] == #[trigger] street_line(
                sim,
                t[i],
            ) by {
                lemma_turn_lines_index(sim, t, t.len() as int, i);
                assert(ls[pos + 2 + i] == b[2 + i]);
            }
            lemma_read_turns(sched, ls, pos + 2, t, 0);
            assert(t.subrange(0, 0) =~= Seq::<(StreetId, Time)>::empty());
            assert(plan_upto(sched, m).insert(id, t) =~= plan_upto(sched, m + 1));
            assert(count_blocks(sched, m + 1) == count_blocks(sched, m) + 1);
            assert(b.len() == 2 + t.len());
            assert(1 + blocks_lines_from(sched, 0, m + 1).len() == pos + 2 + t.len());
            assert(t.len() <= u32::MAX);
            assert(u32_of(ls[pos]) == Some(id));
            assert(u32_of(ls[pos + 1]) == Some(t.len() as u32));
            assert(read_turns(sim, ls, pos + 2, t.len() as int, Seq::empty()) == Some(t));
            assert(read_blocks(sim, ls, pos, count_blocks(sched, n) - count_blocks(sched, m), plan_upto(sched, m))
                == read_blocks(sim, ls, pos + 2 + t.len(), count_blocks(sched, n) - count_blocks(sched, m) - 1,
                    plan_upto(sched, m).insert(id, t)));
        } else {
            assert(blocks_lines_from(sched, 0, m + 1) =~= blocks_lines_from(sched, 0, m));
            assert(plan_upto(sched, m) =~= plan_upto(sched, m + 1));
        }
    }
}

proof fn lemma_count_blocks_monotone(sched: &Schedule, m: int, n: int)
    requires
        0 <= m <= n,
    ensures
        count_blocks(sched, m) <= count_blocks(sched, n),
    decreases n - m,
{
    if m < n {
        lemma_count_blocks_monotone(sched, m, n - 1);
    }
}

proof fn lemma_turn_lines_len(sim: &Simulation, t: Seq<(StreetId, Time)>, n: int)
    requires
        n >= 0,
    ensures
        turn_lines(sim, t, n).len() == n,
    decreases n,
{
    if n > 0 {
        lemma_turn_lines_len(sim, t, n - 1);
    }
}

proof fn lemma_turn_lines_index(sim: &Simulation, t: Seq<(StreetId, Time)>, n: int, i: int)
    requires
        0 <= i < n,
    ensures
        turn_lines(sim, t, n)[i] == street_line(sim, t[i]),
    decreases n,
{
    lemma_turn_lines_len(sim, t, n - 1);
    if i < n - 1 {
        lemma_turn_lines_index(sim, t, n - 1, i);
    }
}

/// Every line of a schedule text is a plain line.
proof fn lemma_text_lines_plain(sched: &Schedule, n: int)
    requires
        sched.wf(),
        names_plain_and_distinct(sched.simulation),
        n >= 0,
    ensures
        forall|i: int| 0 <= i < blocks_lines_from(sched, 0, n).len() ==> plain_line(
            #[trigger] blocks_lines_from(sched, 0, n)[i],
        ),
    decreases n,
{
    if n > 0 {
        lemma_text_lines_plain(sched, n - 1);
        let id = (n - 1) as IntersectionId;
        let t = sched.turns_at(id);
        if t.len() > 0 {
            let a = blocks_lines_from(sched, 0, n - 1);
            let b = block_lines(sched, id);
            assert(sched.intersections@.contains_key(id));
            lemma_decimal_plain(id as nat);
            lemma_decimal_plain(t.len());
            lemma_turn_lines_len(sched.simulation, t, t.len() as int);
            assert forall|i: int| 0 <= i < (a + b).len() implies plain_line(#[trigger] (a + b)[i]) by {
                if i < a.len() {
                    assert((a + b)[i] == a[i]);
                } else if i >= a.len() + 2 {
                    let j = i - a.len() - 2;
                    lemma_turn_lines_index(sched.simulation, t, t.len() as int, j);
                    assert(t[j].0 < sched.simulation.streets@.len());
                    lemma_street_line(sched.simulation, t[j]);
                }
            }
        }
    }
}

/// Reading back the text of a schedule gives its plan: every intersection
/// has the same phases, in the same order, with the same cycle (those with
/// no phase are left out of the text, and read back as having none).
pub proof fn lemma_schedule_text_round_trip(sched: &Schedule)
    requires
        sched.wf(),
        names_plain_and_distinct(sched.simulation),
    ensures
        plan_of_text(sched.simulation, schedule_text(sched)) is Some,
        forall|k: IntersectionId| {
            let p = plan_of_text(sched.simulation, schedule_text(sched))->Some_0;
            (if p.contains_key(k) {
                p[k]
            } else {
                Seq::empty()
            }) == #[trigger] sched.turns_at(k)
        },
{
    let sim = sched.simulation;
    let n = sim.num_intersections as int;
    let ls = text_lines(sched);
    lemma_blocks_text(sched, n);
    let head = seq![decimal_of(count_blocks(sched, n) as nat)];
    lemma_join_concat(head, blocks_lines_from(sched, 0, n));
    assert(head.drop_last() =~= Seq::<Seq<char>>::empty());
    assert(join_lines(head) == join_lines(head.drop_last()) + head.last() + seq!['\n']);
    assert(join_lines(Seq::<Seq<char>>::empty()) == Seq::<char>::empty());
    assert(join_lines(ls) =~= schedule_text(sched));
    lemma_text_lines_plain(sched, n);
    lemma_decimal_plain(count_blocks(sched, n) as nat);
    assert forall|i: int| 0 <= i < ls.len() implies plain_line(#[trigger] ls[i]) by {
        if i > 0 {
            assert(ls[i] == blocks_lines_from(sched, 0, n)[i - 1]);
        }
    }
    lemma_lines_of_join(ls);
    lemma_count_blocks_le(sched, n);
    lemma_decimal_round_trip(count_blocks(sched, n) as u32);
    lemma_read_blocks(sched, 0);
    assert(blocks_lines_from(sched, 0, 0) =~= Seq::<Seq<char>>::empty());
    assert(plan_upto(sched, 0) =~= Map::<IntersectionId, Seq<(StreetId, Time)>>::empty());
    let p = plan_upto(sched, n);
    assert forall|k: IntersectionId| (if p.contains_key(k) {
        p[k]
    } else {
        Seq::empty()
    }) == #[trigger] sched.turns_at(k) by {
        if !p.contains_key(k) && sched.turns_at(k).len() > 0 {
            assert(sched.intersections@.contains_key(k));
        }
        if !p.contains_key(k) {
            assert(sched.turns_at(k) =~= Seq::<(StreetId, Time)>::empty());
        }
    }
}

} // verus!
