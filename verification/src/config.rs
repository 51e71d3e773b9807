//! The configuration file's model, its normalisation, and the detection of
//! the XKB keyboard layout from the system's own tools.

use vstd::prelude::*;

use crate::text::{
    append_chars, chars_of, copy_range, join_with, lemma_prefixes_exclusive, lines, lines_of, opt_view,
    split_chars, split_on, string_of, strip_prefix, strip_prefix_exec, trim, trim_char,
    trim_char_exec, trim_chars, views, edges_solid, lemma_trim_edges, lemma_trim_solid,
    lemma_join_edges, lemma_trim_cuts_white_space, is_space,
};

verus! {

/// One expansion rule: any of its triggers is replaced by `replace`.
#[derive(Clone, Debug)]
pub struct Rule {
    pub triggers: Vec<String>,
    pub replace: String,
}

/// The configuration file.
#[derive(Clone, Debug)]
pub struct FileConfig {
    /// XKB layout, such as `us` or `fr(azerty)`; `None` means auto-detect.
    pub layout: Option<String>,
    /// Maximum trigger length to scan for.
    pub depth: usize,
    /// Pause between injected keystrokes, in milliseconds.
    pub delay_ms: u64,
    pub rules: Vec<Rule>,
}

/// The depth that stands in for a missing or zero one.
pub fn default_depth() -> (r: usize)
    ensures
        r == 64,
{
    64
}

/// The keystroke delay that stands in for a missing or zero one.
pub fn default_delay() -> (r: u64)
    ensures
        r == 12,
{
    12
}

/// `s` holds a character other than white space.
pub open spec fn not_blank(s: Seq<char>) -> bool {
    trim(s).len() > 0
}

/// A rule worth keeping: one of its triggers is not blank, or its replacement is not empty.
pub open spec fn rule_kept(r: Rule) -> bool {
    (exists|i: int| 0 <= i < r.triggers@.len() && not_blank(#[trigger] r.triggers@[i]@))
        || r.replace@.len() > 0
}

fn rule_kept_exec(r: &Rule) -> (b: bool)
    ensures
        b == rule_kept(*r),
{
    let mut i: usize = 0;
    while i < r.triggers.len()
        invariant
            i <= r.triggers@.len(),
            forall|k: int| 0 <= k < i ==> !not_blank(#[trigger] r.triggers@[k]@),
        decreases r.triggers@.len() - i,
    {
        let t = trim_chars(&chars_of(r.triggers[i].as_str()));
        if t.len() > 0 {
            assert(not_blank(r.triggers@[i as int]@));
            return true;
        }
        i = i + 1;
    }
    r.replace.as_str().unicode_len() > 0
}

/// A zero depth stands for the default, 64.
pub open spec fn normalized_depth(depth: usize) -> usize {
    if depth == 0 {
        64
    } else {
        depth
    }
}

/// A zero delay stands for the default, 12 ms.
pub open spec fn normalized_delay(delay_ms: u64) -> u64 {
    if delay_ms == 0 {
        12
    } else {
        delay_ms
    }
}

/// The rules that `normalize` keeps, in order.
pub open spec fn kept_rules(rules: Seq<Rule>) -> Seq<Rule> {
    rules.filter(|x: Rule| rule_kept(x))
}

/// The checks that follow a successful parse of the configuration file: a
/// zero depth or delay takes the default, and rules whose triggers are all
/// blank and whose replacement is empty are dropped.
pub fn normalize(cfg: FileConfig) -> (r: FileConfig)
    ensures
        r.layout == cfg.layout,
        r.depth == normalized_depth(cfg.depth),
        r.delay_ms == normalized_delay(cfg.delay_ms),
        r.rules@ == kept_rules(cfg.rules@),
{
    let FileConfig { layout, depth, delay_ms, rules } = cfg;
    let ghost all = rules@;
    let mut kept: Vec<Rule> = Vec::new();
    for r in it: rules.into_iter()
        invariant
            all == cfg.rules@,
            it.seq() == all,
            kept@ == all.take(it.index() as int).filter(|x: Rule| rule_kept(x)),
    {
        proof {
            let i = it.index() as int;
            assert(all.take(i + 1) =~= all.take(i).push(all[i]));
            all.take(i).lemma_filter_push(all[i], |x: Rule| rule_kept(x));
        }
        if rule_kept_exec(&r) {
            kept.push(r);
        }
    }
    assert(all.take(all.len() as int) =~= all);
    FileConfig {
        layout,
        depth: if depth == 0 { default_depth() } else { depth },
        delay_ms: if delay_ms == 0 { default_delay() } else { delay_ms },
        rules: kept,
    }
}


/// An XKB layout or variant list such as `"us, fr"`: white space and double
/// quotes around it removed, split at commas, each item trimmed.
pub open spec fn csv_items(s: Seq<char>) -> Seq<Seq<char>> {
    split_on(trim_char(trim(s), '"'), ',').map_values(|x: Seq<char>| trim(x))
}

/// Split an XKB layout/variant value like `"us, fr"` or `fr(azerty)`.
pub fn split_csv(s: &str) -> (r: Vec<String>)
    ensures
        views(r@) == csv_items(s@),
{
    let inner = trim_char_exec(&trim_chars(&chars_of(s)), '"');
    let pieces = split_chars(&inner, ',');
    let ghost ps = pieces@.map_values(|v: Vec<char>| v@);
    let mut out: Vec<String> = Vec::new();
    let mut k: usize = 0;
    while k < pieces.len()
        invariant
            k <= pieces@.len() == ps.len(),
            ps == pieces@.map_values(|v: Vec<char>| v@),
            views(out@) == ps.take(k as int).map_values(|x: Seq<char>| trim(x)),
        decreases pieces@.len() - k,
    {
        let item = string_of(&trim_chars(&pieces[k]));
        let ghost before = views(out@);
        out.push(item);
        proof {
            assert(pieces@[k as int]@ == ps[k as int]);
            assert(views(out@) =~= before.push(trim(ps[k as int])));
            assert(ps.take(k + 1).map_values(|x: Seq<char>| trim(x)) =~= ps.take(k as int).map_values(
                |x: Seq<char>| trim(x),
            ).push(trim(ps[k as int])));
        }
        k = k + 1;
    }
    assert(ps.take(ps.len() as int) =~= ps);
    out
}

/// The variant that goes with layout `i`, trimmed; empty when there is none.
pub open spec fn variant_at(variants: Seq<Seq<char>>, i: int) -> Seq<char> {
    if 0 <= i < variants.len() {
        trim(variants[i])
    } else {
        Seq::<char>::empty()
    }
}

/// `layout(variant)`, or the bare layout when the variant is empty.
pub open spec fn layout_part(l: Seq<char>, v: Seq<char>) -> Seq<char> {
    if v.len() == 0 {
        l
    } else {
        l + seq!['('] + v + seq![')']
    }
}

/// The layouts with their variants, joined by commas; `None` when there is
/// no layout or every layout is empty.
pub open spec fn joined_layouts(layouts: Seq<Seq<char>>, variants: Seq<Seq<char>>) -> Option<
    Seq<char>,
> {
    if layouts.len() == 0 || forall|i: int| 0 <= i < layouts.len() ==> #[trigger] layouts[i].len() == 0 {
        None
    } else {
        Some(
            join_with(
                Seq::new(layouts.len(), |i: int| layout_part(layouts[i], variant_at(variants, i))),
                seq![','],
            ),
        )
    }
}

/// `["us","fr"]` + `["","azerty"]` -> `"us,fr(azerty)"`.
pub fn join_layouts(layouts: &[String], variants: &[String]) -> (r: Option<String>)
    ensures
        opt_view(r) == joined_layouts(views(layouts@), views(variants@)),
{
    let ghost ls = views(layouts@);
    let ghost vs = views(variants@);
    let n = layouts.len();
    let mut all_empty = true;
    let mut i: usize = 0;
    while i < n
        invariant
            n == layouts@.len() == ls.len(),
            ls == views(layouts@),
            i <= n,
            all_empty == forall|k: int| 0 <= k < i ==> #[trigger] ls[k].len() == 0,
        decreases n - i,
    {
        if layouts[i].as_str().unicode_len() > 0 {
            assert(ls[i as int].len() > 0);
            all_empty = false;
        }
        i = i + 1;
    }
    if n == 0 || all_empty {
        return None;
    }
    let ghost parts = Seq::new(ls.len(), |i: int| layout_part(ls[i], variant_at(vs, i)));
    let mut out: Vec<char> = Vec::new();
    let mut k: usize = 0;
    while k < n
        invariant
            n == layouts@.len() == ls.len() == parts.len(),
            n >= 1,
            ls == views(layouts@),
            vs == views(variants@),
            parts == Seq::new(ls.len(), |i: int| layout_part(ls[i], variant_at(vs, i))),
            k <= n,
            out@ == join_with(parts.take(k as int), seq![',']),
        decreases n - k,
    {
        let ghost before = out@;
        if k > 0 {
            out.push(',');
        }
        let l = chars_of(layouts[k].as_str());
        append_chars(&mut out, &l);
        let v = if k < variants.len() {
            trim_chars(&chars_of(variants[k].as_str()))
        } else {
            Vec::new()
        };
        assert(v@ == variant_at(vs, k as int));
        if v.len() > 0 {
            out.push('(');
            append_chars(&mut out, &v);
            out.push(')');
        }
        proof {
            let pk = parts.take(k + 1);
            assert(pk.drop_last() =~= parts.take(k as int));
            assert(pk.last() == parts[k as int]);
            if k == 0 {
                assert(out@ =~= parts[0]);
            } else {
                assert(out@ =~= before + seq![','] + parts[k as int]);
            }
        }
        k = k + 1;
    }
    assert(parts.take(n as int) =~= parts);
    Some(string_of(&out))
}

/// The rest of the last line (trimmed first when `trimmed`) that starts with `key`.
pub open spec fn last_field(ls: Seq<Seq<char>>, key: Seq<char>, trimmed: bool) -> Option<Seq<char>>
    decreases ls.len(),
{
    if ls.len() == 0 {
        None
    } else {
        let l = if trimmed {
            trim(ls.last())
        } else {
            ls.last()
        };
        match strip_prefix(l, key) {
            Some(rest) => Some(rest),
            None => last_field(ls.drop_last(), key, trimmed),
        }
    }
}

/// The items of the last line that starts with `key`; none when no line does.
pub open spec fn field_items(text: Seq<char>, key: Seq<char>, trimmed: bool) -> Seq<Seq<char>> {
    match last_field(lines(text), key, trimmed) {
        Some(rest) => csv_items(rest),
        None => Seq::<Seq<char>>::empty(),
    }
}

/// The layout that a listing with a layout line and a variant line describes.
pub open spec fn listed_layout(text: Seq<char>, layout_key: Seq<char>, variant_key: Seq<char>, trimmed: bool) -> Option<Seq<char>> {
    joined_layouts(field_items(text, layout_key, trimmed), field_items(text, variant_key, trimmed))
}

/// Reads the last layout line and the last variant line of a listing.
fn parse_listing(text: &str, layout_key: &str, variant_key: &str, trimmed: bool, Ghost(k): Ghost<int>) -> (r: Option<String>)
    requires
        0 <= k < layout_key@.len(),
        k < variant_key@.len(),
        layout_key@[k] != variant_key@[k],
    ensures
        opt_view(r) == listed_layout(text@, layout_key@, variant_key@, trimmed),
{
    let ls = lines_of(&chars_of(text));
    let ghost lsv = ls@.map_values(|v: Vec<char>| v@);
    let lk = chars_of(layout_key);
    let vk = chars_of(variant_key);
    let mut layouts: Vec<String> = Vec::new();
    let mut variants: Vec<String> = Vec::new();
    let mut i: usize = 0;
    while i < ls.len()
        invariant
            i <= ls@.len() == lsv.len(),
            lsv == ls@.map_values(|v: Vec<char>| v@),
            lsv == lines(text@),
            lk@ == layout_key@,
            vk@ == variant_key@,
            0 <= k < layout_key@.len(),
            k < variant_key@.len(),
            layout_key@[k] != variant_key@[k],
            views(layouts@) == match last_field(lsv.take(i as int), lk@, trimmed) {
                Some(rest) => csv_items(rest),
                None => Seq::<Seq<char>>::empty(),
            },
            views(variants@) == match last_field(lsv.take(i as int), vk@, trimmed) {
                Some(rest) => csv_items(rest),
                None => Seq::<Seq<char>>::empty(),
            },
        decreases ls@.len() - i,
    {
        let line = if trimmed {
            trim_chars(&ls[i])
        } else {
            copy_range(&ls[i], 0, ls[i].len())
        };
        proof {
            let t = lsv.take(i + 1);
            assert(t.drop_last() =~= lsv.take(i as int));
            assert(t.last() == lsv[i as int]);
            assert(ls@[i as int]@ == lsv[i as int]);
            assert(ls@[i as int]@.subrange(0, ls@[i as int]@.len() as int) =~= ls@[i as int]@);
            lemma_prefixes_exclusive(lk@, vk@, line@, k);
        }
        match strip_prefix_exec(&line, &lk) {
            Some(rest) => {
                layouts = split_csv(string_of(&rest).as_str());
            },
            None => match strip_prefix_exec(&line, &vk) {
                Some(rest) => {
                    variants = split_csv(string_of(&rest).as_str());
                },
                None => {},
            },
        }
        i = i + 1;
    }
    assert(lsv.take(lsv.len() as int) =~= lsv);
    join_layouts(&layouts, &variants)
}

/// The layout in the output of `localectl status`: its `X11 Layout:` and
/// `X11 Variant:` lines.
pub fn parse_localectl(text: &str) -> (r: Option<String>)
    ensures
        opt_view(r) == listed_layout(text@, "X11 Layout:"@, "X11 Variant:"@, true),
{
    proof {
        reveal_strlit("X11 Layout:");
        reveal_strlit("X11 Variant:");
    }
    parse_listing(text, "X11 Layout:", "X11 Variant:", true, Ghost(4))
}

/// The layout in the output of `setxkbmap -query`: its `layout:` and
/// `variant:` lines, read without trimming them first.
pub fn parse_setxkbmap(text: &str) -> (r: Option<String>)
    ensures
        opt_view(r) == listed_layout(text@, "layout:"@, "variant:"@, false),
{
    proof {
        reveal_strlit("layout:");
        reveal_strlit("variant:");
    }
    parse_listing(text, "layout:", "variant:", false, Ghost(0))
}

/// The layout in `/etc/default/keyboard`: its `XKBLAYOUT=` and `XKBVARIANT=` lines.
pub fn parse_def_keyboard(text: &str) -> (r: Option<String>)
    ensures
        opt_view(r) == listed_layout(text@, "XKBLAYOUT="@, "XKBVARIANT="@, true),
{
    proof {
        reveal_strlit("XKBLAYOUT=");
        reveal_strlit("XKBVARIANT=");
    }
    parse_listing(text, "XKBLAYOUT=", "XKBVARIANT=", true, Ghost(3))
}


/// A configured or inherited layout name, trimmed; `None` when absent or blank.
pub open spec fn given_layout(o: Option<Seq<char>>) -> Option<Seq<char>> {
    match o {
        Some(l) => if trim(l).len() > 0 {
            Some(trim(l))
        } else {
            None
        },
        None => None,
    }
}

/// The configured layout, trimmed, unless it is absent or blank.
pub fn auto_from_layout(cfg_layout: &Option<String>) -> (r: Option<String>)
    ensures
        opt_view(r) == given_layout(opt_view(*cfg_layout)),
{
    match cfg_layout {
        Some(l) => {
            let t = trim_chars(&chars_of(l.as_str()));
            if t.len() == 0 {
                None
            } else {
                Some(string_of(&t))
            }
        },
        None => None,
    }
}

/// The layout that the sources name, in order of precedence: the configured
/// layout, `XKB_DEFAULT_LAYOUT`, `localectl status`, `setxkbmap -query`,
/// `/etc/default/keyboard`; else `us`.
pub open spec fn resolved_layout(
    cfg_layout: Option<Seq<char>>,
    env_layout: Option<Seq<char>>,
    localectl: Option<Seq<char>>,
    setxkbmap: Option<Seq<char>>,
    keyboard_file: Option<Seq<char>>,
) -> Seq<char> {
    if let Some(l) = given_layout(cfg_layout) {
        l
    } else if let Some(l) = given_layout(env_layout) {
        l
    } else if let Some(l) = (match localectl {
        Some(t) => listed_layout(t, "X11 Layout:"@, "X11 Variant:"@, true),
        None => None,
    }) {
        l
    } else if let Some(l) = (match setxkbmap {
        Some(t) => listed_layout(t, "layout:"@, "variant:"@, false),
        None => None,
    }) {
        l
    } else if let Some(l) = (match keyboard_file {
        Some(t) => listed_layout(t, "XKBLAYOUT="@, "XKBVARIANT="@, true),
        None => None,
    }) {
        l
    } else {
        "us"@
    }
}

proof fn lemma_part_edges(l: Seq<char>, v: Seq<char>)
    requires
        edges_solid(l),
    ensures
        edges_solid(layout_part(l, v)),
        l.len() > 0 ==> layout_part(l, v).len() > 0,
{
    if v.len() > 0 {
        let r = l + seq!['('] + v + seq![')'];
        if l.len() > 0 {
            assert(r[0] == l[0]);
        } else {
            assert(r[0] == '(');
        }
        assert(r.last() == ')');
    }
}

proof fn lemma_listed_edges(text: Seq<char>, lk: Seq<char>, vk: Seq<char>, trimmed: bool)
    ensures
        listed_layout(text, lk, vk, trimmed) matches Some(l) ==> l.len() > 0 && edges_solid(l),
{
    let items = field_items(text, lk, trimmed);
    let vitems = field_items(text, vk, trimmed);
    assert forall|i: int| 0 <= i < items.len() implies edges_solid(#[trigger] items[i]) by {
        if let Some(rest) = last_field(lines(text), lk, trimmed) {
            let sp = split_on(trim_char(trim(rest), '"'), ',');
            assert(items[i] == trim(sp[i]));
            lemma_trim_edges(sp[i]);
        }
    }
    if let Some(l) = joined_layouts(items, vitems) {
        let parts = Seq::new(items.len(), |i: int| layout_part(items[i], variant_at(vitems, i)));
        assert forall|i: int| 0 <= i < parts.len() implies edges_solid(#[trigger] parts[i]) by {
            lemma_part_edges(items[i], variant_at(vitems, i));
        }
        lemma_join_edges(parts, ',');
        if parts.len() == 1 {
            assert(items[0].len() > 0);
            lemma_part_edges(items[0], variant_at(vitems, 0));
        }
    }
}

/// The layout picked is never blank and never starts or ends with white
/// space, whatever the sources say.
pub proof fn lemma_resolved_layout_trimmed(
    cfg_layout: Option<Seq<char>>,
    env_layout: Option<Seq<char>>,
    localectl: Option<Seq<char>>,
    setxkbmap: Option<Seq<char>>,
    keyboard_file: Option<Seq<char>>,
)
    ensures
        resolved_layout(cfg_layout, env_layout, localectl, setxkbmap, keyboard_file).len() > 0,
        trim(resolved_layout(cfg_layout, env_layout, localectl, setxkbmap, keyboard_file))
            == resolved_layout(cfg_layout, env_layout, localectl, setxkbmap, keyboard_file),
{
    reveal_strlit("us");
    if let Some(l) = cfg_layout {
        lemma_trim_edges(l);
    }
    if let Some(l) = env_layout {
        lemma_trim_edges(l);
    }
    if let Some(t) = localectl {
        lemma_listed_edges(t, "X11 Layout:"@, "X11 Variant:"@, true);
    }
    if let Some(t) = setxkbmap {
        lemma_listed_edges(t, "layout:"@, "variant:"@, false);
    }
    if let Some(t) = keyboard_file {
        lemma_listed_edges(t, "XKBLAYOUT="@, "XKBVARIANT="@, true);
    }
    let r = resolved_layout(cfg_layout, env_layout, localectl, setxkbmap, keyboard_file);
    assert(edges_solid("us"@));
    lemma_trim_solid(r);
}

/// Picks the keyboard layout from the configuration and from what the
/// system reports: the value of `XKB_DEFAULT_LAYOUT`, the output of
/// `localectl status` and of `setxkbmap -query` (each `None` where the
/// command failed), and the text of `/etc/default/keyboard`.
pub fn resolve_layout(
    cfg_layout: &Option<String>,
    env_layout: Option<String>,
    localectl: Option<String>,
    setxkbmap: Option<String>,
    keyboard_file: Option<String>,
) -> (r: String)
    ensures
        r@ == resolved_layout(
            opt_view(*cfg_layout),
            opt_view(env_layout),
            opt_view(localectl),
            opt_view(setxkbmap),
            opt_view(keyboard_file),
        ),
{
    if let Some(l) = auto_from_layout(cfg_layout) {
        return l;
    }
    if let Some(l) = auto_from_layout(&env_layout) {
        return l;
    }
    if let Some(t) = &localectl {
        if let Some(l) = parse_localectl(t.as_str()) {
            return l;
        }
    }
    if let Some(t) = &setxkbmap {
        if let Some(l) = parse_setxkbmap(t.as_str()) {
            return l;
        }
    }
    if let Some(t) = &keyboard_file {
        if let Some(l) = parse_def_keyboard(t.as_str()) {
            return l;
        }
    }
    "us".to_owned()
}

/// The sample configuration that `sproutx init` writes.
pub const SAMPLE: &'static str = "# sproutx - system-wide text expander
#
#   layout:   XKB layout, e.g. \"us\", \"fr(azerty)\", \"us,de\".
#             null/absent = auto-detect (XKB_DEFAULT_LAYOUT,
#             localectl, setxkbmap, /etc/default/keyboard, else \"us\").
#   depth:    maximum trigger length to scan for.
#   delay_ms: pause between injected keystrokes (lower = faster, may drop keys).

layout: ~
depth: 64
delay_ms: 12

rules:
  - trigger: \":sproutx\"
    replace: \"sproutx expands short triggers into long text\"

  # a rule can also have several triggers
  - triggers:
      - \":today\"
      - \":date\"
    replace: \"{{today}}\"

  - trigger: \":time\"
    replace: \"{{time}}\"

  - trigger: \":now\"
    replace: \"{{now}}\"
";

/// The sample configuration, as a string.
pub fn sample() -> (r: String)
    ensures
        r@ == SAMPLE@,
{
    SAMPLE.to_owned()
}

proof fn lemma_kept_rules_idempotent(rules: Seq<Rule>)
    ensures
        kept_rules(kept_rules(rules)) == kept_rules(rules),
    decreases rules.len(),
{
    reveal_with_fuel(Seq::filter, 1);
    if rules.len() > 0 {
        let init = rules.drop_last();
        lemma_kept_rules_idempotent(init);
        let k = kept_rules(init);
        if rule_kept(rules.last()) {
            assert(kept_rules(rules) =~= k.push(rules.last()));
            k.lemma_filter_push(rules.last(), |x: Rule| rule_kept(x));
        } else {
            assert(kept_rules(rules) == k);
        }
    }
}

/// Normalising twice is normalising once: a normalised configuration keeps
/// its depth, its delay and all of its rules.
pub proof fn lemma_normalize_idempotent(rules: Seq<Rule>, depth: usize, delay_ms: u64)
    ensures
        kept_rules(kept_rules(rules)) == kept_rules(rules),
        normalized_depth(normalized_depth(depth)) == normalized_depth(depth),
        normalized_delay(normalized_delay(delay_ms)) == normalized_delay(delay_ms),
{
    lemma_kept_rules_idempotent(rules);
}

proof fn lemma_not_blank_means(s: Seq<char>)
    ensures
        not_blank(s) <==> exists|k: int| 0 <= k < s.len() && !is_space(#[trigger] s[k]),
{
    lemma_trim_cuts_white_space(s);
    let (i, j) = choose|i: int, j: int|
        #![trigger s.subrange(i, j)]
        0 <= i <= j <= s.len() && trim(s) == s.subrange(i, j) && (forall|k: int|
            0 <= k < i ==> is_space(#[trigger] s[k])) && (forall|k: int|
            j <= k < s.len() ==> is_space(#[trigger] s[k]));
    if not_blank(s) {
        assert(trim(s)[0] == s[i]);
    } else {
        assert forall|k: int| 0 <= k < s.len() implies is_space(#[trigger] s[k]) by {
            if i <= k < j {
                assert(false);
            }
        }
    }
}

/// `normalize` keeps exactly the rules that have a trigger with a character
/// other than white space, or a non-empty replacement, in their order.
pub proof fn lemma_kept_rules_means(rules: Seq<Rule>)
    ensures
        kept_rules(rules).len() <= rules.len(),
        forall|r: Rule|
            #[trigger] kept_rules(rules).contains(r) <==> rules.contains(r) && ((exists|i: int, k: int|
                0 <= i < r.triggers@.len() && 0 <= k < r.triggers@[i]@.len() && !is_space(
                    #[trigger] r.triggers@[i]@[k],
                )) || r.replace@.len() > 0),
        (forall|i: int| 0 <= i < rules.len() ==> rule_kept(#[trigger] rules[i])) ==> kept_rules(rules) == rules,
{
    let p = |x: Rule| rule_kept(x);
    broadcast use vstd::seq_lib::group_filter_ensures;
    assert forall|r: Rule| #[trigger] rule_kept(r) <==> ((exists|i: int, k: int|
        0 <= i < r.triggers@.len() && 0 <= k < r.triggers@[i]@.len() && !is_space(
            #[trigger] r.triggers@[i]@[k],
        )) || r.replace@.len() > 0) by {
        assert forall|i: int| 0 <= i < r.triggers@.len() implies (not_blank(#[trigger] r.triggers@[i]@) <==> exists|k: int| 0 <= k < r.triggers@[i]@.len() && !is_space(r.triggers@[i]@[k])) by {
            lemma_not_blank_means(r.triggers@[i]@);
        }
    }
    assert forall|r: Rule| #[trigger] kept_rules(rules).contains(r) <==> rules.contains(r) && rule_kept(r) by {
        if rules.contains(r) && rule_kept(r) {
            let i = choose|i: int| 0 <= i < rules.len() && rules[i] == r;
            assert(p(rules[i]));
        }
        if kept_rules(rules).contains(r) {
            rules.lemma_filter_contains_rev(p, r);
            let i = choose|i: int| 0 <= i < kept_rules(rules).len() && kept_rules(rules)[i] == r;
            assert(p(kept_rules(rules)[i]));
        }
    }
    if forall|i: int| 0 <= i < rules.len() ==> rule_kept(#[trigger] rules[i]) {
        lemma_filter_all(rules, p);
    }
}

proof fn lemma_filter_all<A>(s: Seq<A>, p: spec_fn(A) -> bool)
    requires
        forall|i: int| 0 <= i < s.len() ==> p(#[trigger] s[i]),
    ensures
        s.filter(p) == s,
    decreases s.len(),
{
    reveal_with_fuel(Seq::filter, 1);
    if s.len() > 0 {
        lemma_filter_all(s.drop_last(), p);
        assert(s.drop_last().push(s.last()) =~= s);
    } else {
        assert(s =~= Seq::<A>::empty());
    }
}

/// A configured layout that is not blank wins, trimmed, whatever the
/// environment and the system report; when it is absent or blank, a non-blank
/// `XKB_DEFAULT_LAYOUT` wins the same way; only when both are missing or
/// blank do the system's reports count, and when none names a layout the
/// result is `us`.
pub proof fn lemma_layout_precedence(
    cfg_layout: Option<Seq<char>>,
    env_layout: Option<Seq<char>>,
    localectl: Option<Seq<char>>,
    setxkbmap: Option<Seq<char>>,
    keyboard_file: Option<Seq<char>>,
)
    ensures
        (cfg_layout matches Some(l) && trim(l).len() > 0) ==> resolved_layout(
            cfg_layout,
            env_layout,
            localectl,
            setxkbmap,
            keyboard_file,
        ) == trim(cfg_layout.unwrap()),
        (!(cfg_layout matches Some(l) && trim(l).len() > 0) && (env_layout matches Some(e) && trim(e).len()
            > 0)) ==> resolved_layout(cfg_layout, env_layout, localectl, setxkbmap, keyboard_file)
            == trim(env_layout.unwrap()),
        (!(cfg_layout matches Some(l) && trim(l).len() > 0) && !(env_layout matches Some(e) && trim(
            e,
        ).len() > 0)) ==> resolved_layout(cfg_layout, env_layout, localectl, setxkbmap, keyboard_file)
            == resolved_layout(None, None, localectl, setxkbmap, keyboard_file),
        resolved_layout(None, None, None, None, None) == "us"@,
{
}

/// A depth of 0 means the default of 64 and a delay of 0 the default of
/// 12 ms; any other value is kept as given.
pub proof fn lemma_defaults(depth: usize, delay_ms: u64)
    ensures
        normalized_depth(depth) == if depth == 0 { 64 } else { depth },
        normalized_delay(delay_ms) == if delay_ms == 0 { 12 } else { delay_ms },
        normalized_depth(depth) > 0 && normalized_delay(delay_ms) > 0,
{
}

} // verus!
