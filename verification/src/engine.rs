//! The trigger matcher. It keeps the rules' triggers in the order in which
//! they are tried (longest first), knows which triggers are prefixes of
//! others, and decides, keystroke by keystroke, when a trigger fires.

use vstd::prelude::*;

use crate::config::Rule;
use crate::order::{lemma_sorts_before_order, sorts_before, sorts_before_exec};
use crate::text::{is_word_char, word_char, chars_of, copy_range, is_prefix_exec, same_chars, string_of, trim, trim_chars};

verus! {

/// A trigger with its replacement, by their characters.
pub type Entry = (Seq<char>, Seq<char>);

/// The (trimmed, non-empty) triggers of one rule, each with the rule's replacement.
pub open spec fn rule_entries(r: Rule) -> Seq<Entry> {
    r.triggers@.map_values(|t: String| (trim(t@), r.replace@)).filter(
        |e: Entry| e.0.len() > 0,
    )
}

/// The entries of all rules, rule after rule, in the rules' own order.
pub open spec fn collect_entries(rules: Seq<Rule>) -> Seq<Entry>
    decreases rules.len(),
{
    if rules.len() == 0 {
        Seq::<Entry>::empty()
    } else {
        collect_entries(rules.drop_last()) + rule_entries(rules.last())
    }
}

/// The entries whose trigger is `t`, in order.
pub open spec fn with_trigger(es: Seq<Entry>, t: Seq<char>) -> Seq<Entry> {
    es.filter(|e: Entry| e.0 == t)
}

/// Every trigger stands no later than the ones after it in the matcher's order.
pub open spec fn sorted_entries(es: Seq<Entry>) -> bool {
    forall|i: int, j: int| 0 <= i < j < es.len() ==> sorts_before(#[trigger] es[i].0, #[trigger] es[j].0)
}

/// `out` is `input` sorted stably: in the matcher's order, entries of one
/// trigger keeping their relative order.
pub open spec fn arranges(out: Seq<Entry>, input: Seq<Entry>) -> bool {
    &&& sorted_entries(out)
    &&& forall|t: Seq<char>| #[trigger] with_trigger(out, t) == with_trigger(input, t)
}

/// `t` is the trigger of one entry and a strict prefix of a longer trigger.
pub open spec fn ambiguous_in(es: Seq<Entry>, t: Seq<char>) -> bool {
    exists|i: int, j: int|
        0 <= i < es.len() && 0 <= j < es.len() && #[trigger] es[j].0 == t
            && t.len() < es[i].0.len() && t.is_prefix_of(#[trigger] es[i].0)
}

/// The entries of a vector of (trigger, replacement) strings.
pub open spec fn view_entries(v: Seq<(String, String)>) -> Seq<Entry> {
    v.map_values(|p: (String, String)| (p.0@, p.1@))
}

/// `trigs` holds the characters of the triggers of `sorted`, index by index.
pub open spec fn parallel(sorted: Seq<(String, String)>, trigs: Seq<Vec<char>>) -> bool {
    &&& trigs.len() == sorted.len()
    &&& forall|i: int| 0 <= i < sorted.len() ==> (#[trigger] trigs[i])@ == sorted[i].0@
}

proof fn lemma_with_trigger_push(s: Seq<Entry>, x: Entry, u: Seq<char>)
    ensures
        with_trigger(s.push(x), u) == if x.0 == u {
            with_trigger(s, u).push(x)
        } else {
            with_trigger(s, u)
        },
{
    reveal_with_fuel(Seq::filter, 1);
    assert(s.push(x).drop_last() =~= s);
}

proof fn lemma_filter_none<A>(s: Seq<A>, p: spec_fn(A) -> bool)
    requires
        forall|i: int| 0 <= i < s.len() ==> !p(#[trigger] s[i]),
    ensures
        s.filter(p) == Seq::<A>::empty(),
    decreases s.len(),
{
    reveal_with_fuel(Seq::filter, 1);
    if s.len() > 0 {
        lemma_filter_none(s.drop_last(), p);
    }
}

/// Inserts an entry after every entry that may stand before it.
fn insert_sorted(
    sorted: &mut Vec<(String, String)>,
    trigs: &mut Vec<Vec<char>>,
    t: String,
    tc: Vec<char>,
    repl: String,
)
    requires
        parallel(old(sorted)@, old(trigs)@),
        sorted_entries(view_entries(old(sorted)@)),
        tc@ == t@,
    ensures
        parallel(final(sorted)@, final(trigs)@),
        sorted_entries(view_entries(final(sorted)@)),
        forall|u: Seq<char>|
            #[trigger] with_trigger(view_entries(final(sorted)@), u) == with_trigger(
                view_entries(old(sorted)@).push((t@, repl@)),
                u,
            ),
{
    let ghost olds = view_entries(sorted@);
    let ghost x: Entry = (t@, repl@);
    let mut k: usize = sorted.len();
    while k > 0 && !sorts_before_exec(&trigs[k - 1], &tc)
        invariant
            k <= sorted@.len(),
            parallel(sorted@, trigs@),
            olds == view_entries(sorted@),
            tc@ == x.0,
            forall|m: int| k <= m < olds.len() ==> !sorts_before(#[trigger] olds[m].0, x.0),
        decreases k,
    {
        k = k - 1;
    }
    let ghost tcv = tc@;
    sorted.insert(k, (t, repl));
    trigs.insert(k, tc);
    let ghost news = view_entries(sorted@);
    proof {
        assert(news =~= olds.insert(k as int, x));
        assert forall|i: int| 0 <= i < sorted@.len() implies (#[trigger] trigs@[i])@ == sorted@[i].0@ by {
            if i < k {
            } else if i == k {
            } else {
            }
        }
        assert forall|i: int, j: int| 0 <= i < j < news.len() implies sorts_before(
            #[trigger] news[i].0,
            #[trigger] news[j].0,
        ) by {
            if j < k {
                assert(news[i] == olds[i] && news[j] == olds[j]);
            } else if j == k {
                assert(news[i] == olds[i]);
                lemma_sorts_before_order(olds[i].0, olds[k - 1].0, x.0);
                if i < k - 1 {
                    assert(sorts_before(olds[i].0, olds[k - 1].0));
                }
            } else if i == k {
                assert(news[j] == olds[j - 1]);
                lemma_sorts_before_order(x.0, olds[j - 1].0, x.0);
            } else if i < k {
                assert(news[i] == olds[i] && news[j] == olds[j - 1]);
                if i < j - 1 {
                } else {
                    lemma_sorts_before_order(olds[i].0, olds[i].0, olds[i].0);
                }
            } else {
                assert(news[i] == olds[i - 1] && news[j] == olds[j - 1]);
            }
        }
        assert forall|u: Seq<char>|
            #[trigger] with_trigger(news, u) == with_trigger(olds.push(x), u) by {
            let p = |e: Entry| e.0 == u;
            let pre = olds.subrange(0, k as int);
            let post = olds.subrange(k as int, olds.len() as int);
            assert(news =~= pre + seq![x] + post);
            assert(olds =~= pre + post);
            assert(olds.push(x) =~= pre + post + seq![x]);
            Seq::filter_distributes_over_add(pre + seq![x], post, p);
            Seq::filter_distributes_over_add(pre, seq![x], p);
            Seq::filter_distributes_over_add(pre + post, seq![x], p);
            Seq::filter_distributes_over_add(pre, post, p);
            if u == x.0 {
                assert forall|m: int| 0 <= m < post.len() implies !p(#[trigger] post[m]) by {
                    lemma_sorts_before_order(post[m].0, post[m].0, post[m].0);
                    assert(post[m] == olds[m + k]);
                }
                lemma_filter_none(post, p);
            }
            reveal_with_fuel(Seq::filter, 2);
        }
    }
}


/// The shorter of two triggers (the first one when they are equally long).
pub open spec fn pair_short(a: Seq<char>, b: Seq<char>) -> Seq<char> {
    if a.len() <= b.len() {
        a
    } else {
        b
    }
}

/// The longer of two triggers (the second one when they are equally long).
pub open spec fn pair_long(a: Seq<char>, b: Seq<char>) -> Seq<char> {
    if a.len() <= b.len() {
        b
    } else {
        a
    }
}

/// The shorter of two triggers is a strict prefix of the longer one.
pub open spec fn pair_hit(a: Seq<char>, b: Seq<char>) -> bool {
    &&& pair_short(a, b).len() < pair_long(a, b).len()
    &&& pair_short(a, b).is_prefix_of(pair_long(a, b))
}

/// `t` occurs among the character sequences held in `v`.
pub open spec fn holds_chars(v: Seq<Vec<char>>, t: Seq<char>) -> bool {
    exists|m: int| 0 <= m < v.len() && (#[trigger] v[m])@ == t
}

/// No character sequence occurs twice in `v`.
pub open spec fn distinct_chars(v: Seq<Vec<char>>) -> bool {
    forall|a: int, b: int| 0 <= a < b < v.len() ==> (#[trigger] v[a])@ != (#[trigger] v[b])@
}

/// Pair `(x, y)` of trigger indices, `x < y`, comes before `(a, b)` in the scan.
pub open spec fn pair_scanned(x: int, y: int, a: int, b: int, n: int) -> bool {
    &&& 0 <= x < y < n
    &&& (x < a || (x == a && y < b))
}

/// `t` is the shorter trigger of a scanned pair and a strict prefix of the longer one.
pub open spec fn found_before(ts: Seq<Seq<char>>, t: Seq<char>, a: int, b: int) -> bool {
    exists|x: int, y: int|
        #![trigger ts[x], ts[y]]
        pair_scanned(x, y, a, b, ts.len() as int) && pair_short(ts[x], ts[y]) == t
            && pair_hit(ts[x], ts[y])
}

fn holds_chars_exec(v: &Vec<Vec<char>>, t: &[char]) -> (r: bool)
    ensures
        r == holds_chars(v@, t@),
{
    let mut m: usize = 0;
    while m < v.len()
        invariant
            m <= v@.len(),
            forall|q: int| 0 <= q < m ==> (#[trigger] v@[q])@ != t@,
        decreases v@.len() - m,
    {
        if same_chars(&v[m], t) {
            return true;
        }
        m = m + 1;
    }
    false
}

proof fn lemma_found_is_ambiguous(es: Seq<Entry>, ts: Seq<Seq<char>>, t: Seq<char>)
    requires
        ts.len() == es.len(),
        forall|i: int| 0 <= i < es.len() ==> #[trigger] ts[i] == es[i].0,
    ensures
        found_before(ts, t, ts.len() as int, 0) <==> ambiguous_in(es, t),
{
    let n = ts.len() as int;
    if found_before(ts, t, n, 0) {
        let (x, y) = choose|x: int, y: int|
            #![trigger ts[x], ts[y]]
            pair_scanned(x, y, n, 0, n) && pair_short(ts[x], ts[y]) == t && pair_hit(ts[x], ts[y]);
        assert(ts[x] == es[x].0 && ts[y] == es[y].0);
        if ts[x].len() <= ts[y].len() {
            assert(es[x].0 == t && t.is_prefix_of(es[y].0));
        } else {
            assert(es[y].0 == t && t.is_prefix_of(es[x].0));
        }
    }
    if ambiguous_in(es, t) {
        let (i, j) = choose|i: int, j: int|
            0 <= i < es.len() && 0 <= j < es.len() && #[trigger] es[j].0 == t
                && t.len() < es[i].0.len() && t.is_prefix_of(#[trigger] es[i].0);
        assert(ts[i] == es[i].0 && ts[j] == es[j].0);
        if i < j {
            assert(pair_scanned(i, j, n, 0, n));
        } else {
            assert(pair_scanned(j, i, n, 0, n));
        }
    }
}

/// The set of ambiguous triggers: every trigger that is a strict prefix of a longer trigger.
fn find_ambiguous(trigs: &Vec<Vec<char>>, Ghost(es): Ghost<Seq<Entry>>) -> (amb: Vec<Vec<char>>)
    requires
        trigs@.len() == es.len(),
        forall|i: int| 0 <= i < es.len() ==> (#[trigger] trigs@[i])@ == es[i].0,
    ensures
        distinct_chars(amb@),
        forall|t: Seq<char>| #[trigger] holds_chars(amb@, t) <==> ambiguous_in(es, t),
{
    let ghost ts = trigs@.map_values(|v: Vec<char>| v@);
    let n = trigs.len();
    let mut amb: Vec<Vec<char>> = Vec::new();
    let mut a: usize = 0;
    while a < n
        invariant
            n == trigs@.len() == ts.len(),
            forall|i: int| 0 <= i < n ==> #[trigger] ts[i] == trigs@[i]@,
            a <= n,
            distinct_chars(amb@),
            forall|t: Seq<char>|
                #[trigger] holds_chars(amb@, t) <==> found_before(ts, t, a as int, a as int + 1),
        decreases n - a,
    {
        let mut b: usize = a + 1;
        while b < n
            invariant
                n == trigs@.len() == ts.len(),
                forall|i: int| 0 <= i < n ==> #[trigger] ts[i] == trigs@[i]@,
                a < n,
                a < b <= n,
                distinct_chars(amb@),
                forall|t: Seq<char>|
                    #[trigger] holds_chars(amb@, t) <==> found_before(ts, t, a as int, b as int),
            decreases n - b,
        {
            let ta = &trigs[a];
            let tb = &trigs[b];
            let (short, long) = if ta.len() <= tb.len() {
                (ta, tb)
            } else {
                (tb, ta)
            };
            let ghost before = amb@;
            let flag = short.len() < long.len() && is_prefix_exec(short, long);
            let pushed = flag && !holds_chars_exec(&amb, short);
            if pushed {
                amb.push(copy_range(short, 0, short.len()));
            }
            proof {
                assert(ts[a as int] == ta@ && ts[b as int] == tb@);
                assert(short@ == pair_short(ts[a as int], ts[b as int]));
                assert(long@ == pair_long(ts[a as int], ts[b as int]));
                if pushed {
                    assert(amb@[before.len() as int]@ == short@);
                    assert forall|p: int, q: int| 0 <= p < q < amb@.len() implies (#[trigger] amb@[p])@
                        != (#[trigger] amb@[q])@ by {
                        assert(amb@[p] == before[p]);
                        if q < before.len() {
                            assert(amb@[q] == before[q]);
                        } else {
                            assert(!holds_chars(before, short@));
                        }
                    }
                } else {
                    assert(amb@ == before);
                }
                assert forall|t: Seq<char>|
                    #[trigger] holds_chars(amb@, t) <==> (holds_chars(before, t) || (flag && t
                        == short@)) by {
                    if holds_chars(before, t) {
                        let m = choose|m: int| 0 <= m < before.len() && (#[trigger] before[m])@ == t;
                        assert(amb@[m] == before[m]);
                    }
                    if flag && t == short@ && !holds_chars(before, t) {
                        assert(amb@[before.len() as int]@ == t);
                    }
                    if holds_chars(amb@, t) {
                        let m = choose|m: int| 0 <= m < amb@.len() && (#[trigger] amb@[m])@ == t;
                        if m < before.len() {
                            assert(before[m] == amb@[m]);
                        }
                    }
                }
                assert forall|t: Seq<char>|
                    #[trigger] found_before(ts, t, a as int, b as int + 1) <==> (found_before(
                        ts,
                        t,
                        a as int,
                        b as int,
                    ) || (flag && t == short@)) by {
                    if found_before(ts, t, a as int, b as int + 1) {
                        let (x, y) = choose|x: int, y: int|
                            #![trigger ts[x], ts[y]]
                            pair_scanned(x, y, a as int, b as int + 1, n as int) && pair_short(
                                ts[x],
                                ts[y],
                            ) == t && pair_hit(ts[x], ts[y]);
                        if !(x == a && y == b) {
                            assert(pair_scanned(x, y, a as int, b as int, n as int));
                        }
                    }
                    if found_before(ts, t, a as int, b as int) {
                        let (x, y) = choose|x: int, y: int|
                            #![trigger ts[x], ts[y]]
                            pair_scanned(x, y, a as int, b as int, n as int) && pair_short(
                                ts[x],
                                ts[y],
                            ) == t && pair_hit(ts[x], ts[y]);
                        assert(pair_scanned(x, y, a as int, b as int + 1, n as int));
                    }
                    if flag && t == short@ {
                        assert(pair_scanned(a as int, b as int, a as int, b as int + 1, n as int));
                    }
                }
            }
            b = b + 1;
        }
        proof {
            assert forall|t: Seq<char>|
                #[trigger] holds_chars(amb@, t) <==> found_before(ts, t, a as int + 1, a as int + 2) by {
                if found_before(ts, t, a as int + 1, a as int + 2) {
                    let (x, y) = choose|x: int, y: int|
                        #![trigger ts[x], ts[y]]
                        pair_scanned(x, y, a as int + 1, a as int + 2, n as int) && pair_short(
                            ts[x],
                            ts[y],
                        ) == t && pair_hit(ts[x], ts[y]);
                    assert(pair_scanned(x, y, a as int, n as int, n as int));
                }
                if found_before(ts, t, a as int, n as int) {
                    let (x, y) = choose|x: int, y: int|
                        #![trigger ts[x], ts[y]]
                        pair_scanned(x, y, a as int, n as int, n as int) && pair_short(ts[x], ts[y])
                            == t && pair_hit(ts[x], ts[y]);
                    assert(pair_scanned(x, y, a as int + 1, a as int + 2, n as int));
                }
            }
        }
        a = a + 1;
    }
    proof {
        assert forall|t: Seq<char>| #[trigger] holds_chars(amb@, t) <==> ambiguous_in(es, t) by {
            if found_before(ts, t, n as int, n as int + 1) {
                let (x, y) = choose|x: int, y: int|
                    #![trigger ts[x], ts[y]]
                    pair_scanned(x, y, n as int, n as int + 1, n as int) && pair_short(ts[x], ts[y])
                        == t && pair_hit(ts[x], ts[y]);
                assert(pair_scanned(x, y, n as int, 0, n as int));
            }
            if found_before(ts, t, n as int, 0) {
                let (x, y) = choose|x: int, y: int|
                    #![trigger ts[x], ts[y]]
                    pair_scanned(x, y, n as int, 0, n as int) && pair_short(ts[x], ts[y]) == t
                        && pair_hit(ts[x], ts[y]);
                assert(pair_scanned(x, y, n as int, n as int + 1, n as int));
            }
            lemma_found_is_ambiguous(es, ts, t);
        }
    }
    amb
}


/// The entries of the first `k` triggers of rule `r`.
pub open spec fn rule_entries_upto(r: Rule, k: int) -> Seq<Entry> {
    r.triggers@.take(k).map_values(|t: String| (trim(t@), r.replace@)).filter(
        |e: Entry| e.0.len() > 0,
    )
}

proof fn lemma_rule_entries_step(r: Rule, k: int)
    requires
        0 <= k < r.triggers@.len(),
    ensures
        rule_entries_upto(r, k + 1) == if trim(r.triggers@[k]@).len() > 0 {
            rule_entries_upto(r, k).push((trim(r.triggers@[k]@), r.replace@))
        } else {
            rule_entries_upto(r, k)
        },
{
    let f = |t: String| (trim(t@), r.replace@);
    let p = |e: Entry| e.0.len() > 0;
    let m0 = r.triggers@.take(k).map_values(f);
    let m1 = r.triggers@.take(k + 1).map_values(f);
    assert(m1 =~= m0.push(f(r.triggers@[k])));
    m0.lemma_filter_push(f(r.triggers@[k]), p);
}

proof fn lemma_collect_step(rules: Seq<Rule>, i: int)
    requires
        0 <= i < rules.len(),
    ensures
        collect_entries(rules.take(i + 1)) == collect_entries(rules.take(i)) + rule_entries(
            rules[i],
        ),
{
    assert(rules.take(i + 1).drop_last() =~= rules.take(i));
    assert(rules.take(i + 1).last() == rules[i]);
}

/// Trigger `trig` occupies `buf[n - |trig| .. n)`, is no longer than `depth`,
/// and starts a word: it begins the buffer or follows a character that is not
/// a word character.
pub open spec fn fits_window(trig: Seq<char>, buf: Seq<char>, n: int, depth: int) -> bool {
    &&& trig.len() <= n
    &&& trig.len() <= depth
    &&& buf.subrange(n - trig.len(), n) == trig
    &&& (n == trig.len() || !is_word_char(buf[n - trig.len() - 1]))
}

/// The first entry, in the matcher's order, whose trigger fits the window.
pub open spec fn first_fit(es: Seq<Entry>, buf: Seq<char>, n: int, depth: int) -> Option<Entry>
    decreases es.len(),
{
    if es.len() == 0 {
        None
    } else if fits_window(es[0].0, buf, n, depth) {
        Some(es[0])
    } else {
        first_fit(es.drop_first(), buf, n, depth)
    }
}

/// The entry that fires on the buffer's first `n` characters, if any.
pub open spec fn window_match(es: Seq<Entry>, buf: Seq<char>, n: int, depth: int) -> Option<Entry> {
    if n > buf.len() {
        None
    } else {
        first_fit(es, buf, n, depth)
    }
}

/// As `window_match`, but a trigger that is a prefix of another does not fire.
pub open spec fn immediate_match(es: Seq<Entry>, buf: Seq<char>, n: int, depth: int) -> Option<
    Entry,
> {
    match window_match(es, buf, n, depth) {
        Some(m) => if ambiguous_in(es, m.0) {
            None
        } else {
            Some(m)
        },
        None => None,
    }
}

/// The buffer after typing `ch`, and the expansion due now: the buffer keeps
/// its last `max(depth, 1) + 1` characters. A word character fires only a
/// trigger that is no prefix of a longer one; a delimiter fires a trigger that
/// ends with it, or else one that ends just before it.
pub open spec fn feed_result(
    es: Seq<Entry>,
    limit: int,
    buf: Seq<char>,
    depth: int,
    ch: char,
) -> (Seq<char>, Option<Entry>) {
    let b1 = buf.push(ch);
    let cap = if depth < 1 {
        2
    } else {
        depth + 1
    };
    let b = if b1.len() > cap {
        b1.subrange(b1.len() - cap, b1.len() as int)
    } else {
        b1
    };
    if !is_word_char(ch) {
        (b, match window_match(es, b, b.len() as int, limit) {
            Some(m) => Some(m),
            None => window_match(es, b, b.len() - 1, limit),
        })
    } else {
        (b, immediate_match(es, b, b.len() as int, limit))
    }
}

/// A matched pair of strings, by their characters.
pub open spec fn hit_view(r: Option<(String, String)>) -> Option<Entry> {
    match r {
        Some(p) => Some((p.0@, p.1@)),
        None => None,
    }
}

/// Whether `trig` occupies `buf[start .. start + |trig|)`.
fn occupies(buf: &[char], start: usize, trig: &[char]) -> (r: bool)
    requires
        start + trig@.len() <= buf@.len(),
    ensures
        r == (buf@.subrange(start as int, start + trig@.len()) == trig@),
{
    let n = trig.len();
    let mut k: usize = 0;
    while k < n
        invariant
            n == trig@.len(),
            start + n <= buf.len(),
            k <= n,
            buf@.subrange(start as int, start + k) == trig@.subrange(0, k as int),
        decreases n - k,
    {
        if buf[start + k] != trig[k] {
            assert(buf@.subrange(start as int, start + n)[k as int] == buf@[start + k]);
            return false;
        }
        assert(buf@.subrange(start as int, start + k + 1) =~= buf@.subrange(start as int, start + k).push(buf@[start + k]));
        assert(trig@.subrange(0, k + 1) =~= trig@.subrange(0, k as int).push(trig@[k as int]));
        k = k + 1;
    }
    assert(trig@.subrange(0, n as int) =~= trig@);
    true
}

/// The trigger matcher.
pub struct Engine {
    sorted: Vec<(String, String)>,
    triggers: Vec<Vec<char>>,
    ambiguous: Vec<Vec<char>>,
    depth: usize,
}

impl Engine {
    #[verifier::type_invariant]
    spec fn well_formed(self) -> bool {
        &&& parallel(self.sorted@, self.triggers@)
        &&& sorted_entries(self.entries())
        &&& self.depth > 0
        &&& distinct_chars(self.ambiguous@)
        &&& forall|t: Seq<char>|
            #[trigger] holds_chars(self.ambiguous@, t) <==> ambiguous_in(self.entries(), t)
    }

    /// The rules' entries, in the order in which the matcher tries them.
    pub closed spec fn entries(self) -> Seq<Entry> {
        view_entries(self.sorted@)
    }

    /// The longest trigger that the matcher looks for.
    pub closed spec fn depth_limit(self) -> nat {
        self.depth as nat
    }

    /// Collects the rules' triggers (trimmed; blank ones dropped), longest
    /// first, and marks the triggers that are prefixes of others. A depth of 0
    /// stands for the default of 64.
    pub fn new(rules: &[Rule], depth: usize) -> (e: Engine)
        ensures
            arranges(e.entries(), collect_entries(rules@)),
            e.depth_limit() == if depth == 0 {
                64
            } else {
                depth
            },
    {
        let mut sorted: Vec<(String, String)> = Vec::new();
        let mut trigs: Vec<Vec<char>> = Vec::new();
        let ghost mut seen: Seq<Entry> = Seq::empty();
        let mut i: usize = 0;
        while i < rules.len()
            invariant
                i <= rules@.len(),
                parallel(sorted@, trigs@),
                sorted_entries(view_entries(sorted@)),
                forall|u: Seq<char>|
                    #[trigger] with_trigger(view_entries(sorted@), u) == with_trigger(seen, u),
                seen == collect_entries(rules@.take(i as int)),
            decreases rules@.len() - i,
        {
            let r = &rules[i];
            let mut k: usize = 0;
            while k < r.triggers.len()
                invariant
                    i < rules@.len(),
                    *r == rules@[i as int],
                    k <= r.triggers@.len(),
                    parallel(sorted@, trigs@),
                    sorted_entries(view_entries(sorted@)),
                    forall|u: Seq<char>|
                        #[trigger] with_trigger(view_entries(sorted@), u) == with_trigger(seen, u),
                    seen == collect_entries(rules@.take(i as int)) + rule_entries_upto(*r, k as int),
                decreases r.triggers@.len() - k,
            {
                let tc = trim_chars(&chars_of(r.triggers[k].as_str()));
                proof {
                    lemma_rule_entries_step(*r, k as int);
                }
                if tc.len() > 0 {
                    let repl = r.replace.clone();
                    let t = string_of(&tc);
                    let ghost x: Entry = (t@, repl@);
                    let ghost prev = view_entries(sorted@);
                    insert_sorted(&mut sorted, &mut trigs, t, tc, repl);
                    proof {
                        assert forall|u: Seq<char>|
                            #[trigger] with_trigger(view_entries(sorted@), u) == with_trigger(
                                seen.push(x),
                                u,
                            ) by {
                            lemma_with_trigger_push(prev, x, u);
                            lemma_with_trigger_push(seen, x, u);
                            assert(with_trigger(prev, u) == with_trigger(seen, u));
                        }
                        assert(collect_entries(rules@.take(i as int)) + rule_entries_upto(
                            *r,
                            k + 1,
                        ) =~= seen.push(x));
                        seen = seen.push(x);
                    }
                }
                k = k + 1;
            }
            proof {
                assert(r.triggers@.take(r.triggers@.len() as int) =~= r.triggers@);
                lemma_collect_step(rules@, i as int);
            }
            i = i + 1;
        }
        proof {
            assert(rules@.take(rules@.len() as int) =~= rules@);
        }
        let ghost es = view_entries(sorted@);
        let ambiguous = find_ambiguous(&trigs, Ghost(es));
        Engine { sorted, triggers: trigs, ambiguous, depth: if depth == 0 { 64 } else { depth } }
    }
}


impl Engine {
    /// The (trigger, replacement) pairs, in the order in which they are tried.
    pub fn rules(&self) -> (r: &[(String, String)])
        ensures
            view_entries(r@) == self.entries(),
            sorted_entries(self.entries()),
    {
        proof {
            use_type_invariant(self);
        }
        self.sorted.as_slice()
    }

    /// A trigger is "ambiguous" when it is a strict prefix of a longer
    /// trigger. Ambiguous triggers only fire when followed by
    /// a delimiter, so that `:t` does not hijack `:time`.
    pub fn is_ambiguous(&self, trig: &str) -> (r: bool)
        ensures
            r == ambiguous_in(self.entries(), trig@),
    {
        proof {
            use_type_invariant(self);
        }
        let tc = chars_of(trig);
        let mut m: usize = 0;
        while m < self.ambiguous.len()
            invariant
                m <= self.ambiguous@.len(),
                tc@ == trig@,
                forall|q: int| 0 <= q < m ==> (#[trigger] self.ambiguous@[q])@ != tc@,
            decreases self.ambiguous@.len() - m,
        {
            if same_chars(&self.ambiguous[m], &tc) {
                proof {
                    use_type_invariant(self);
                }
                assert(holds_chars(self.ambiguous@, tc@));
                return true;
            }
            m = m + 1;
        }
        proof {
            use_type_invariant(self);
        }
        assert(!holds_chars(self.ambiguous@, tc@));
        false
    }

    /// Exact match: the trigger must occupy `buffer[start..n)` with a word
    /// boundary before it.
    fn match_window(&self, buffer: &[char], n: usize) -> (r: Option<(String, String)>)
        ensures
            hit_view(r) == window_match(self.entries(), buffer@, n as int, self.depth_limit() as int),
    {
        proof {
            use_type_invariant(self);
        }
        if n > buffer.len() {
            return None;
        }
        let ghost es = self.entries();
        let ghost d = self.depth as int;
        let mut i: usize = 0;
        assert(es.subrange(0, es.len() as int) =~= es);
        while i < self.sorted.len()
            invariant
                es == self.entries(),
                d == self.depth,
                parallel(self.sorted@, self.triggers@),
                n <= buffer@.len(),
                i <= es.len(),
                first_fit(es, buffer@, n as int, d) == first_fit(es.subrange(i as int, es.len() as int), buffer@, n as int, d),
            decreases es.len() - i,
        {
            let ghost rest = es.subrange(i as int, es.len() as int);
            assert(rest.drop_first() =~= es.subrange(i + 1, es.len() as int));
            assert(rest[0] == es[i as int]);
            let trig = &self.triggers[i];
            let tl = trig.len();
            if tl <= n && tl <= self.depth {
                let start = n - tl;
                if occupies(buffer, start, trig) {
                    if start == 0 || !word_char(buffer[start - 1]) {
                        let (t, r) = &self.sorted[i];
                        return Some((t.clone(), r.clone()));
                    }
                }
            }
            i = i + 1;
        }
        None
    }

    /// Same as `match_window`, but only for unambiguous triggers (immediate firing).
    fn match_window_immediate(&self, buffer: &[char], n: usize) -> (r: Option<(String, String)>)
        ensures
            hit_view(r) == immediate_match(self.entries(), buffer@, n as int, self.depth_limit() as int),
    {
        match self.match_window(buffer, n) {
            Some((t, r)) => {
                if self.is_ambiguous(t.as_str()) {
                    None
                } else {
                    Some((t, r))
                }
            },
            None => None,
        }
    }

    /// Pushes one typed character into `buffer` (which keeps its last
    /// `max(depth, 1) + 1` characters) and returns the expansion that should
    /// happen now, if any.
    pub fn feed_char(&self, buffer: &mut Vec<char>, depth: usize, ch: char) -> (r: Option<(String, String)>)
        requires
            depth < usize::MAX,
        ensures
            (final(buffer)@, hit_view(r)) == feed_result(self.entries(), self.depth_limit() as int, old(buffer)@, depth as int, ch),
    {
        let is_delim = !word_char(ch);
        buffer.push(ch);
        let cap = if depth < 1 { 1 } else { depth } + 1;
        if buffer.len() > cap {
            let excess = buffer.len() - cap;
            let kept = copy_range(buffer, excess, buffer.len());
            *buffer = kept;
        }
        if is_delim {
            let m = self.match_window(buffer, buffer.len());
            if m.is_some() {
                return m;
            }
            self.match_window(buffer, buffer.len() - 1)
        } else {
            self.match_window_immediate(buffer, buffer.len())
        }
    }

    /// Called on Enter / Escape: a completed trigger at the very end.
    pub fn match_at_end(&self, buffer: &[char]) -> (r: Option<(String, String)>)
        ensures
            hit_view(r) == window_match(self.entries(), buffer@, buffer@.len() as int, self.depth_limit() as int),
    {
        self.match_window(buffer, buffer.len())
    }
}


/// `first_fit` picks the earliest entry whose trigger fits.
pub proof fn lemma_first_fit(es: Seq<Entry>, buf: Seq<char>, n: int, depth: int)
    ensures
        match first_fit(es, buf, n, depth) {
            Some(m) => exists|i: int|
                0 <= i < es.len() && es[i] == m && fits_window(m.0, buf, n, depth) && forall|j: int|
                    0 <= j < i ==> !fits_window(#[trigger] es[j].0, buf, n, depth),
            None => forall|j: int| 0 <= j < es.len() ==> !fits_window(#[trigger] es[j].0, buf, n, depth),
        },
    decreases es.len(),
{
    if es.len() > 0 {
        let t = es.drop_first();
        lemma_first_fit(t, buf, n, depth);
        if fits_window(es[0].0, buf, n, depth) {
            assert(es[0] == es[0]);
        } else {
            match first_fit(t, buf, n, depth) {
                Some(m) => {
                    let i = choose|i: int|
                        0 <= i < t.len() && t[i] == m && fits_window(m.0, buf, n, depth) && forall|
                            j: int,
                        | 0 <= j < i ==> !fits_window(#[trigger] t[j].0, buf, n, depth);
                    assert forall|j: int| 0 <= j < i + 1 implies !fits_window(
                        #[trigger] es[j].0,
                        buf,
                        n,
                        depth,
                    ) by {
                        if j > 0 {
                            assert(es[j] == t[j - 1]);
                        }
                    }
                    assert(es[i + 1] == m);
                },
                None => {
                    assert forall|j: int| 0 <= j < es.len() implies !fits_window(
                        #[trigger] es[j].0,
                        buf,
                        n,
                        depth,
                    ) by {
                        if j > 0 {
                            assert(es[j] == t[j - 1]);
                        }
                    }
                },
            }
        }
    }
}

/// A trigger fires only at a word boundary: the trigger ends at `n` and the
/// character before it, if any, is not a word character. And when no entry
/// fires, no trigger fits the window.
pub proof fn lemma_fires_at_word_start(es: Seq<Entry>, buf: Seq<char>, n: int, depth: int)
    requires
        n <= buf.len(),
    ensures
        window_match(es, buf, n, depth) matches Some(m) ==> {
            &&& es.contains(m)
            &&& m.0.len() <= n
            &&& buf.subrange(n - m.0.len(), n) == m.0
            &&& (n == m.0.len() || !is_word_char(buf[n - m.0.len() - 1]))
        },
        window_match(es, buf, n, depth) is None ==> forall|j: int|
            0 <= j < es.len() ==> !fits_window(#[trigger] es[j].0, buf, n, depth),
{
    lemma_first_fit(es, buf, n, depth);
}

/// The longest trigger wins: when a trigger fires, no longer trigger fits the
/// same window.
pub proof fn lemma_longest_trigger_wins(es: Seq<Entry>, buf: Seq<char>, n: int, depth: int, j: int)
    requires
        sorted_entries(es),
        0 <= j < es.len(),
        fits_window(es[j].0, buf, n, depth),
        n <= buf.len(),
    ensures
        window_match(es, buf, n, depth) matches Some(m) && es[j].0.len() <= m.0.len(),
{
    lemma_first_fit(es, buf, n, depth);
    match first_fit(es, buf, n, depth) {
        Some(m) => {
            let i = choose|i: int|
                0 <= i < es.len() && es[i] == m && fits_window(m.0, buf, n, depth) && forall|j: int|
                    0 <= j < i ==> !fits_window(#[trigger] es[j].0, buf, n, depth);
            if i < j {
                assert(sorts_before(es[i].0, es[j].0));
            }
        },
        None => {},
    }
}

/// A trigger that is a strict prefix of a longer one never fires on a word character:
/// it waits for a delimiter, so that `:t` never hijacks `:time`.
pub proof fn lemma_prefix_waits_for_delimiter(
    es: Seq<Entry>,
    limit: int,
    buf: Seq<char>,
    depth: int,
    ch: char,
)
    requires
        is_word_char(ch),
    ensures
        feed_result(es, limit, buf, depth, ch).1 matches Some(m) ==> !ambiguous_in(es, m.0),
{
}

/// The buffer never holds more than `max(depth, 1) + 1` characters, and it
/// always ends with the character just typed.
pub proof fn lemma_buffer_bounded(es: Seq<Entry>, limit: int, buf: Seq<char>, depth: int, ch: char)
    ensures
        feed_result(es, limit, buf, depth, ch).0.len() <= if depth < 1 {
            2
        } else {
            depth + 1
        },
        feed_result(es, limit, buf, depth, ch).0.last() == ch,
{
}

proof fn lemma_with_trigger_front(s: Seq<Entry>, u: Seq<char>)
    requires
        s.len() > 0,
    ensures
        with_trigger(s, u) == if s[0].0 == u {
            seq![s[0]] + with_trigger(s.drop_first(), u)
        } else {
            with_trigger(s.drop_first(), u)
        },
{
    let p = |e: Entry| e.0 == u;
    assert(s =~= seq![s[0]] + s.drop_first());
    Seq::filter_distributes_over_add(seq![s[0]], s.drop_first(), p);
    reveal_with_fuel(Seq::filter, 2);
    assert(seq![s[0]].drop_last() =~= Seq::<Entry>::empty());
}

proof fn lemma_with_trigger_holds(s: Seq<Entry>, i: int)
    requires
        0 <= i < s.len(),
    ensures
        with_trigger(s, s[i].0).len() > 0,
    decreases i,
{
    lemma_with_trigger_front(s, s[i].0);
    if i > 0 {
        lemma_with_trigger_holds(s.drop_first(), i - 1);
    }
}

proof fn lemma_with_trigger_member(s: Seq<Entry>, u: Seq<char>)
    requires
        with_trigger(s, u).len() > 0,
    ensures
        exists|i: int| 0 <= i < s.len() && #[trigger] s[i].0 == u,
    decreases s.len(),
{
    if s.len() == 0 {
        reveal_with_fuel(Seq::filter, 1);
    } else {
        lemma_with_trigger_front(s, u);
        if s[0].0 != u {
            lemma_with_trigger_member(s.drop_first(), u);
            let i = choose|i: int| 0 <= i < s.drop_first().len() && #[trigger] s.drop_first()[i].0 == u;
            assert(s[i + 1].0 == u);
        }
    }
}

proof fn lemma_sorted_same_filters(a: Seq<Entry>, b: Seq<Entry>)
    requires
        sorted_entries(a),
        sorted_entries(b),
        forall|u: Seq<char>| #[trigger] with_trigger(a, u) == with_trigger(b, u),
    ensures
        a == b,
    decreases a.len() + b.len(),
{
    if a.len() == 0 || b.len() == 0 {
        if a.len() > 0 {
            lemma_with_trigger_holds(a, 0);
            assert(with_trigger(a, a[0].0) == with_trigger(b, a[0].0));
            lemma_with_trigger_member(b, a[0].0);
        } else if b.len() > 0 {
            lemma_with_trigger_holds(b, 0);
            assert(with_trigger(a, b[0].0) == with_trigger(b, b[0].0));
            lemma_with_trigger_member(a, b[0].0);
        } else {
            assert(a =~= b);
        }
    } else {
        let x = a[0];
        let y = b[0];
        lemma_with_trigger_holds(a, 0);
        assert(with_trigger(a, x.0) == with_trigger(b, x.0));
        lemma_with_trigger_member(b, x.0);
        let j = choose|j: int| 0 <= j < b.len() && #[trigger] b[j].0 == x.0;
        lemma_sorts_before_order(y.0, y.0, x.0);
        if j > 0 {
            assert(sorts_before(b[0].0, b[j].0));
        }
        lemma_with_trigger_holds(b, 0);
        assert(with_trigger(a, y.0) == with_trigger(b, y.0));
        lemma_with_trigger_member(a, y.0);
        let i = choose|i: int| 0 <= i < a.len() && #[trigger] a[i].0 == y.0;
        if i > 0 {
            assert(sorts_before(a[0].0, a[i].0));
        }
        lemma_sorts_before_order(x.0, y.0, x.0);
        let t = x.0;
        assert(y.0 == t);
        lemma_with_trigger_front(a, t);
        lemma_with_trigger_front(b, t);
        assert(with_trigger(a, t) == with_trigger(b, t));
        assert((seq![x] + with_trigger(a.drop_first(), t))[0] == x);
        assert((seq![y] + with_trigger(b.drop_first(), t))[0] == y);
        assert(x == y);
        assert(with_trigger(a.drop_first(), t) =~= (seq![x] + with_trigger(a.drop_first(), t)).drop_first());
        assert(with_trigger(b.drop_first(), t) =~= (seq![y] + with_trigger(b.drop_first(), t)).drop_first());
        assert forall|u: Seq<char>|
            #[trigger] with_trigger(a.drop_first(), u) == with_trigger(b.drop_first(), u) by {
            lemma_with_trigger_front(a, u);
            lemma_with_trigger_front(b, u);
            assert(with_trigger(a, u) == with_trigger(b, u));
        }
        lemma_sorted_same_filters(a.drop_first(), b.drop_first());
        assert(a =~= seq![x] + a.drop_first());
        assert(b =~= seq![y] + b.drop_first());
    }
}

/// The engine's order is a function of the rules: two arrangements of the same
/// entries are equal, so `Engine::new` leaves no choice in `rules()`.
pub proof fn lemma_arrangement_unique(a: Seq<Entry>, b: Seq<Entry>, input: Seq<Entry>)
    requires
        arranges(a, input),
        arranges(b, input),
    ensures
        a == b,
{
    assert forall|u: Seq<char>| #[trigger] with_trigger(a, u) == with_trigger(b, u) by {
        assert(with_trigger(a, u) == with_trigger(input, u));
        assert(with_trigger(b, u) == with_trigger(input, u));
    }
    lemma_sorted_same_filters(a, b);
}

/// A trigger finished by a delimiter fires: when the kept buffer, before the
/// delimiter, ends with a trigger at a word boundary (within the depth),
/// typing the delimiter expands something, however much text came before.
pub proof fn lemma_delimiter_completes(
    es: Seq<Entry>,
    limit: int,
    buf: Seq<char>,
    depth: int,
    ch: char,
    j: int,
)
    requires
        !is_word_char(ch),
        0 <= j < es.len(),
        fits_window(
            es[j].0,
            feed_result(es, limit, buf, depth, ch).0,
            feed_result(es, limit, buf, depth, ch).0.len() - 1,
            limit,
        ),
    ensures
        feed_result(es, limit, buf, depth, ch).1 is Some,
{
    let b = feed_result(es, limit, buf, depth, ch).0;
    lemma_first_fit(es, b, b.len() as int, limit);
    lemma_first_fit(es, b, b.len() - 1, limit);
}

/// A trigger completed by a word character fires at once, however much text
/// came before it, when every trigger that fits there is no prefix of a
/// longer one.
pub proof fn lemma_word_char_completes(
    es: Seq<Entry>,
    limit: int,
    buf: Seq<char>,
    depth: int,
    ch: char,
    j: int,
)
    requires
        is_word_char(ch),
        0 <= j < es.len(),
        fits_window(
            es[j].0,
            feed_result(es, limit, buf, depth, ch).0,
            feed_result(es, limit, buf, depth, ch).0.len() as int,
            limit,
        ),
        forall|k: int|
            0 <= k < es.len() && fits_window(
                #[trigger] es[k].0,
                feed_result(es, limit, buf, depth, ch).0,
                feed_result(es, limit, buf, depth, ch).0.len() as int,
                limit,
            ) ==> !ambiguous_in(es, es[k].0),
    ensures
        feed_result(es, limit, buf, depth, ch).1 is Some,
{
    let b = feed_result(es, limit, buf, depth, ch).0;
    lemma_first_fit(es, b, b.len() as int, limit);
}

/// What a keystroke fires is one of the rules' entries, no longer than the
/// matcher's depth, lying at a word boundary at the end of the kept buffer
/// (or, after a delimiter, just before it); a word character fires only a
/// trigger that is no prefix of a longer one, and only one that it completes.
pub proof fn lemma_feed_hit(es: Seq<Entry>, limit: int, buf: Seq<char>, depth: int, ch: char)
    ensures
        feed_result(es, limit, buf, depth, ch).1 matches Some(m) ==> {
            let b = feed_result(es, limit, buf, depth, ch).0;
            &&& es.contains(m)
            &&& m.0.len() <= limit
            &&& (fits_window(m.0, b, b.len() as int, limit) || (!is_word_char(ch) && fits_window(
                m.0,
                b,
                b.len() - 1,
                limit,
            )))
            &&& (is_word_char(ch) ==> fits_window(m.0, b, b.len() as int, limit) && !ambiguous_in(
                es,
                m.0,
            ))
        },
{
    let b = feed_result(es, limit, buf, depth, ch).0;
    lemma_first_fit(es, b, b.len() as int, limit);
    lemma_first_fit(es, b, b.len() - 1, limit);
}

proof fn lemma_count_with_trigger(s: Seq<Entry>, x: Entry)
    ensures
        s.to_multiset().count(x) == with_trigger(s, x.0).to_multiset().count(x),
    decreases s.len(),
{
    broadcast use vstd::seq_lib::group_to_multiset_ensures;
    if s.len() == 0 {
        reveal_with_fuel(Seq::filter, 1);
        assert(with_trigger(s, x.0) =~= Seq::<Entry>::empty());
    } else {
        let t = s.drop_last();
        let y = s.last();
        lemma_count_with_trigger(t, x);
        lemma_with_trigger_push(t, y, x.0);
        assert(t.push(y) =~= s);
    }
}

/// `Engine::new` keeps every entry of the rules, as often as it occurs, and
/// adds none: the arrangement is a permutation of the rules' entries.
pub proof fn lemma_arrangement_permutes(out: Seq<Entry>, input: Seq<Entry>)
    requires
        arranges(out, input),
    ensures
        out.to_multiset() == input.to_multiset(),
{
    assert forall|x: Entry| #[trigger] out.to_multiset().count(x) == input.to_multiset().count(x) by {
        lemma_count_with_trigger(out, x);
        lemma_count_with_trigger(input, x);
        assert(with_trigger(out, x.0) == with_trigger(input, x.0));
    }
    assert(out.to_multiset() =~= input.to_multiset());
}

/// The buffer after a keystroke holds the last `max(depth, 1) + 1` of the
/// characters typed so far (all of them while they are fewer), the new one
/// last.
pub proof fn lemma_buffer_keeps_latest(es: Seq<Entry>, limit: int, buf: Seq<char>, depth: int, ch: char)
    ensures
        ({
            let cap = if depth < 1 { 2 } else { depth + 1 };
            let all = buf.push(ch);
            let b = feed_result(es, limit, buf, depth, ch).0;
            &&& b.len() == if all.len() < cap { all.len() as int } else { cap }
            &&& b == all.subrange(all.len() - b.len(), all.len() as int)
        }),
{
    let all = buf.push(ch);
    assert(all.subrange(0, all.len() as int) =~= all);
}

/// A trigger that the text typed so far ends with, starting a word and no
/// longer than the matcher's depth, fires when a delimiter follows it.
pub proof fn lemma_trigger_then_delimiter_fires(
    es: Seq<Entry>,
    limit: int,
    buf: Seq<char>,
    depth: int,
    ch: char,
    j: int,
)
    requires
        !is_word_char(ch),
        0 <= j < es.len(),
        ({
            let t = es[j].0;
            let b = feed_result(es, limit, buf, depth, ch).0;
            let n = b.len() - 1;
            &&& t.len() <= limit
            &&& t.len() <= n
            &&& b.subrange(n - t.len(), n) == t
            &&& (n == t.len() || !is_word_char(b[n - t.len() - 1]))
        }),
    ensures
        feed_result(es, limit, buf, depth, ch).1 is Some,
{
    lemma_delimiter_completes(es, limit, buf, depth, ch, j);
}

proof fn lemma_rule_entries_means(r: Rule, e: Entry)
    ensures
        rule_entries(r).contains(e) <==> exists|k: int|
            0 <= k < r.triggers@.len() && e == (trim(#[trigger] r.triggers@[k]@), r.replace@) && e.0.len() > 0,
{
    let f = |t: String| (trim(t@), r.replace@);
    let p = |x: Entry| x.0.len() > 0;
    let m = r.triggers@.map_values(f);
    if rule_entries(r).contains(e) {
        m.lemma_filter_contains_rev(p, e);
        broadcast use vstd::seq_lib::group_filter_ensures;
        let i = choose|i: int| 0 <= i < rule_entries(r).len() && rule_entries(r)[i] == e;
        assert(p(rule_entries(r)[i]));
        let k = choose|k: int| 0 <= k < m.len() && m[k] == e;
        assert(m[k] == f(r.triggers@[k]));
    }
    if exists|k: int| 0 <= k < r.triggers@.len() && e == (trim(#[trigger] r.triggers@[k]@), r.replace@) && e.0.len() > 0 {
        let k = choose|k: int| 0 <= k < r.triggers@.len() && e == (trim(#[trigger] r.triggers@[k]@), r.replace@) && e.0.len() > 0;
        assert(m[k] == e);
        m.lemma_filter_contains(p, k);
    }
}

/// The entries that `Engine::new` collects are exactly the rules' triggers,
/// each trimmed and paired with its rule's replacement, leaving out the
/// triggers that are blank.
pub proof fn lemma_collected_entries_means(rules: Seq<Rule>, e: Entry)
    ensures
        collect_entries(rules).contains(e) <==> exists|i: int, k: int|
            0 <= i < rules.len() && 0 <= k < rules[i].triggers@.len() && e == (trim(
                #[trigger] rules[i].triggers@[k]@,
            ), rules[i].replace@) && e.0.len() > 0,
    decreases rules.len(),
{
    if rules.len() > 0 {
        let p = rules.drop_last();
        let l = rules.last();
        lemma_collected_entries_means(p, e);
        lemma_rule_entries_means(l, e);
        let a = collect_entries(p);
        let b = rule_entries(l);
        if (a + b).contains(e) {
            let w = choose|w: int| 0 <= w < (a + b).len() && (a + b)[w] == e;
            if w < a.len() {
                assert(a[w] == e);
                let (i, k) = choose|i: int, k: int|
                    0 <= i < p.len() && 0 <= k < p[i].triggers@.len() && e == (trim(
                        #[trigger] p[i].triggers@[k]@,
                    ), p[i].replace@) && e.0.len() > 0;
                assert(rules[i] == p[i]);
            } else {
                assert(b[w - a.len()] == e);
                let k = choose|k: int|
                    0 <= k < l.triggers@.len() && e == (trim(#[trigger] l.triggers@[k]@), l.replace@) && e.0.len() > 0;
                assert(rules[rules.len() - 1] == l);
            }
        }
        if exists|i: int, k: int|
            0 <= i < rules.len() && 0 <= k < rules[i].triggers@.len() && e == (trim(
                #[trigger] rules[i].triggers@[k]@,
            ), rules[i].replace@) && e.0.len() > 0 {
            let (i, k) = choose|i: int, k: int|
                0 <= i < rules.len() && 0 <= k < rules[i].triggers@.len() && e == (trim(
                    #[trigger] rules[i].triggers@[k]@,
                ), rules[i].replace@) && e.0.len() > 0;
            if i < p.len() {
                assert(p[i] == rules[i]);
                assert(a.contains(e));
                let w = choose|w: int| 0 <= w < a.len() && a[w] == e;
                assert((a + b)[w] == e);
            } else {
                assert(rules[i] == l);
                assert(b.contains(e));
                let w = choose|w: int| 0 <= w < b.len() && b[w] == e;
                assert((a + b)[a.len() + w] == e);
            }
        }
    }
}

} // verus!
