use vstd::prelude::*;
use crate::aggregate::{codes_unique, entries, is_listing, table_of};
use crate::fields::{
    color_of, colors_of, first_bad_key, is_key_code, triple_effect, triple_records,
};
use crate::parser::{entries_of, records_of};
use crate::types::{color_name, effect_name, Color, EffectKind, EffectModel, Entry, KeyConfig};

verus! {

/// The names of a list of colors, in order.
pub open spec fn color_names(cs: Seq<Color>) -> Seq<Seq<char>> {
    cs.map_values(|c: Color| color_name(c))
}

/// The three token lines that declare one entry: its code, its effect word, its colors.
pub open spec fn entry_lines(e: Entry) -> Seq<Seq<Seq<char>>> {
    match e.1 {
        EffectModel::Static(c) => seq![
            seq![e.0],
            seq![effect_name(EffectKind::Static)],
            seq![color_name(c)],
        ],
        EffectModel::Wave(cs) => seq![seq![e.0], seq![effect_name(EffectKind::Wave)], color_names(cs)],
        EffectModel::Disco(a, b, c) => seq![
            seq![e.0],
            seq![effect_name(EffectKind::Disco)],
            seq![color_name(a), color_name(b), color_name(c)],
        ],
    }
}

/// The token lines that declare a list of entries, three per entry, in order.
pub open spec fn rendered(es: Seq<Entry>) -> Seq<Seq<Seq<char>>>
    decreases es.len(),
{
    if es.len() == 0 {
        Seq::empty()
    } else {
        rendered(es.drop_last()) + entry_lines(es.last())
    }
}

/// The token lines of a color list.
fn color_tokens(cs: &Vec<Color>) -> (r: Vec<String>)
    ensures
        r.deep_view() == color_names(cs@),
{
    let mut r: Vec<String> = Vec::new();
    let mut i: usize = 0;
    while i < cs.len()
        invariant
            i <= cs.len(),
            r.deep_view() == color_names(cs@.take(i as int)),
        decreases cs.len() - i,
    {
        let ghost before = r.deep_view();
        r.push(String::from_str(cs[i].name()));
        assert(r.deep_view() =~= before.push(color_name(cs@[i as int])));
        assert(color_names(cs@.take(i + 1)) =~= color_names(cs@.take(i as int)).push(
            color_name(cs@[i as int]),
        ));
        i = i + 1;
    }
    assert(cs@.take(i as int) =~= cs@);
    r
}

/// Writes effects back as token lines: for each, its code, its effect word and its colors.
pub fn render_tokens(configs: &Vec<KeyConfig>) -> (r: Vec<Vec<String>>)
    ensures
        r.deep_view() == rendered(entries(configs@)),
{
    let mut r: Vec<Vec<String>> = Vec::new();
    let mut i: usize = 0;
    while i < configs.len()
        invariant
            i <= configs.len(),
            r.deep_view() == rendered(entries(configs@).take(i as int)),
        decreases configs.len() - i,
    {
        let kc = &configs[i];
        let mut code_line: Vec<String> = Vec::new();
        code_line.push(kc.code().clone());
        let mut effect_line: Vec<String> = Vec::new();
        let colors_line: Vec<String> = match kc {
            KeyConfig::Static { color, .. } => {
                effect_line.push(String::from_str(EffectKind::Static.name()));
                let mut v: Vec<String> = Vec::new();
                v.push(String::from_str(color.name()));
                assert(effect_line.deep_view() =~= seq![effect_name(EffectKind::Static)]);
                assert(v.deep_view() =~= seq![color_name(*color)]);
                v
            },
            KeyConfig::Wave { colors, .. } => {
                effect_line.push(String::from_str(EffectKind::Wave.name()));
                assert(effect_line.deep_view() =~= seq![effect_name(EffectKind::Wave)]);
                color_tokens(colors)
            },
            KeyConfig::Disco { color1, color2, color3, .. } => {
                effect_line.push(String::from_str(EffectKind::Disco.name()));
                let mut v: Vec<String> = Vec::new();
                v.push(String::from_str(color1.name()));
                v.push(String::from_str(color2.name()));
                v.push(String::from_str(color3.name()));
                assert(effect_line.deep_view() =~= seq![effect_name(EffectKind::Disco)]);
                assert(v.deep_view() =~= seq![
                    color_name(*color1),
                    color_name(*color2),
                    color_name(*color3),
                ]);
                v
            },
        };
        let ghost before = r.deep_view();
        let ghost lines = seq![code_line.deep_view(), effect_line.deep_view(), colors_line.deep_view()];
        r.push(code_line);
        r.push(effect_line);
        r.push(colors_line);
        proof {
            let es = entries(configs@);
            assert(es.take(i + 1).drop_last() =~= es.take(i as int));
            assert(es.take(i + 1).last() == kc@);
            assert(code_line.deep_view() =~= seq![kc@.0]);
            assert(lines =~= entry_lines(kc@));
            assert(r.deep_view() =~= before + lines);
        }
        i = i + 1;
    }
    assert(entries(configs@).take(i as int) =~= entries(configs@));
    r
}

proof fn lemma_rendered_index(es: Seq<Entry>, i: int, k: int)
    requires
        0 <= i < es.len(),
        0 <= k < 3,
    ensures
        rendered(es).len() == 3 * es.len(),
        rendered(es)[3 * i + k] == entry_lines(es[i])[k],
    decreases es.len(),
{
    lemma_rendered_len(es.drop_last());
    if i < es.len() - 1 {
        lemma_rendered_index(es.drop_last(), i, k);
    }
}

proof fn lemma_rendered_len(es: Seq<Entry>)
    ensures
        rendered(es).len() == 3 * es.len(),
    decreases es.len(),
{
    if es.len() > 0 {
        lemma_rendered_len(es.drop_last());
    }
}

proof fn lemma_colors_of_push(line: Seq<Seq<char>>, cs: Seq<Color>, c: Color)
    requires
        colors_of(line) == Ok::<Seq<Color>, Seq<char>>(cs),
    ensures
        colors_of(line.push(color_name(c))) == Ok::<Seq<Color>, Seq<char>>(cs.push(c)),
{
    assert(line.push(color_name(c)).drop_last() =~= line);
    assert(color_of(color_name(c)) == Some(c));
}

proof fn lemma_colors_of_names(cs: Seq<Color>)
    ensures
        colors_of(color_names(cs)) == Ok::<Seq<Color>, Seq<char>>(cs),
    decreases cs.len(),
{
    if cs.len() > 0 {
        lemma_colors_of_names(cs.drop_last());
        lemma_colors_of_push(color_names(cs.drop_last()), cs.drop_last(), cs.last());
        assert(color_names(cs.drop_last()).push(color_name(cs.last())) =~= color_names(cs));
        assert(cs.drop_last().push(cs.last()) =~= cs);
    } else {
        assert(color_names(cs) =~= Seq::<Seq<char>>::empty());
        assert(cs =~= Seq::<Color>::empty());
    }
}

proof fn lemma_entry_lines_parse(e: Entry)
    requires
        is_key_code(e.0),
    ensures
        triple_records(entry_lines(e)[0], entry_lines(e)[1], entry_lines(e)[2]) == Ok::<
            Seq<Entry>,
            crate::types::ErrorModel,
        >(seq![e]),
{
    let l = entry_lines(e);
    let none = Seq::<Seq<char>>::empty();
    assert(first_bad_key(none) is None);
    assert(none.push(e.0).drop_last() == none);
    assert(none.push(e.0).last() == e.0);
    assert(first_bad_key(none.push(e.0)) is None);
    assert(none.push(e.0) =~= seq![e.0]);
    assert(first_bad_key(seq![e.0]) is None);
    assert(colors_of(none) == Ok::<Seq<Color>, Seq<char>>(Seq::empty()));
    match e.1 {
        EffectModel::Static(c) => {
            lemma_colors_of_push(none, Seq::empty(), c);
            assert(none.push(color_name(c)) =~= seq![color_name(c)]);
            assert(Seq::<Color>::empty().push(c) =~= seq![c]);
        },
        EffectModel::Wave(cs) => {
            lemma_colors_of_names(cs);
        },
        EffectModel::Disco(a, b, c) => {
            lemma_colors_of_push(none, Seq::empty(), a);
            lemma_colors_of_push(none.push(color_name(a)), Seq::empty().push(a), b);
            lemma_colors_of_push(
                none.push(color_name(a)).push(color_name(b)),
                Seq::empty().push(a).push(b),
                c,
            );
            assert(none.push(color_name(a)).push(color_name(b)).push(color_name(c)) =~= seq![
                color_name(a),
                color_name(b),
                color_name(c),
            ]);
            assert(Seq::<Color>::empty().push(a).push(b).push(c) =~= seq![a, b, c]);
        },
    }
    assert(triple_effect(l[0], l[1], l[2]) == Ok::<EffectModel, crate::types::ErrorModel>(e.1));
    assert(seq![e.0].map_values(|k: Seq<char>| (k, e.1)) =~= seq![e]);
}

proof fn lemma_records_of_rendered(es: Seq<Entry>, n: nat)
    requires
        n <= es.len(),
        forall|i: int| 0 <= i < es.len() ==> is_key_code(#[trigger] es[i].0),
    ensures
        records_of(rendered(es), n) == Ok::<Seq<Entry>, crate::types::ErrorModel>(es.take(n as int)),
    decreases n,
{
    if n == 0 {
        assert(es.take(0) =~= Seq::<Entry>::empty());
    } else {
        let m = (n - 1) as int;
        lemma_records_of_rendered(es, (n - 1) as nat);
        lemma_rendered_index(es, m, 0);
        lemma_rendered_index(es, m, 1);
        lemma_rendered_index(es, m, 2);
        lemma_entry_lines_parse(es[m]);
        assert(es.take(m) + seq![es[m]] =~= es.take(n as int));
    }
}

/// With distinct codes, the table built from `v` maps each code of `v` to its effect.
proof fn lemma_table_of_unique(v: Seq<Entry>)
    requires
        codes_unique(v),
    ensures
        forall|k: Seq<char>| #[trigger] table_of(v).contains_key(k) <==> exists|i: int|
            0 <= i < v.len() && v[i].0 == k,
        forall|i: int| 0 <= i < v.len() ==> table_of(v)[(#[trigger] v[i]).0] == v[i].1,
    decreases v.len(),
{
    if v.len() > 0 {
        let w = v.drop_last();
        lemma_table_of_unique(w);
        assert forall|k: Seq<char>| #[trigger] table_of(v).contains_key(k) <==> exists|i: int|
            0 <= i < v.len() && v[i].0 == k by {
            if table_of(v).contains_key(k) {
                if k != v.last().0 {
                    assert(table_of(w).contains_key(k));
                    let i = choose|i: int| 0 <= i < w.len() && w[i].0 == k;
                    assert(v[i] == w[i]);
                } else {
                    assert(v[v.len() - 1].0 == k);
                }
            }
            if exists|i: int| 0 <= i < v.len() && v[i].0 == k {
                let i = choose|i: int| 0 <= i < v.len() && v[i].0 == k;
                if i < v.len() - 1 {
                    assert(w[i] == v[i]);
                    assert(table_of(w).contains_key(k));
                }
            }
        }
        assert forall|i: int| 0 <= i < v.len() implies table_of(v)[(#[trigger] v[i]).0] == v[i].1 by {
            if i < v.len() - 1 {
                assert(w[i] == v[i]);
                assert(v[i].0 != v[v.len() - 1].0);
            }
        }
    }
}

/// Every code in the table comes from some entry.
proof fn lemma_table_codes(es: Seq<Entry>, k: Seq<char>)
    requires
        table_of(es).contains_key(k),
    ensures
        exists|i: int| 0 <= i < es.len() && es[i].0 == k,
    decreases es.len(),
{
    if es.last().0 != k {
        lemma_table_codes(es.drop_last(), k);
        let i = choose|i: int| 0 <= i < es.len() - 1 && es.drop_last()[i].0 == k;
        assert(es[i] == es.drop_last()[i]);
    }
}

proof fn lemma_no_bad_key(keys: Seq<Seq<char>>)
    requires
        first_bad_key(keys) is None,
    ensures
        forall|i: int| 0 <= i < keys.len() ==> is_key_code(#[trigger] keys[i]),
    decreases keys.len(),
{
    if keys.len() > 0 {
        lemma_no_bad_key(keys.drop_last());
        assert forall|i: int| 0 <= i < keys.len() implies is_key_code(#[trigger] keys[i]) by {
            if i < keys.len() - 1 {
                assert(keys.drop_last()[i] == keys[i]);
            }
        }
    }
}

/// Every accepted entry has a valid key code.
proof fn lemma_records_codes(lines: Seq<Seq<Seq<char>>>, n: nat)
    requires
        records_of(lines, n) is Ok,
    ensures
        forall|i: int| 0 <= i < records_of(lines, n)->Ok_0.len() ==> is_key_code(
            #[trigger] records_of(lines, n)->Ok_0[i].0,
        ),
    decreases n,
{
    if n > 0 {
        let m = (n - 1) as nat;
        lemma_records_codes(lines, m);
        let keys = lines[3 * m as int];
        lemma_no_bad_key(keys);
        let prev = records_of(lines, m)->Ok_0;
        let all = records_of(lines, n)->Ok_0;
        assert forall|i: int| 0 <= i < all.len() implies is_key_code(#[trigger] all[i].0) by {
            if i < prev.len() {
                assert(all[i] == prev[i]);
            } else {
                assert(all[i].0 == keys[i - prev.len()]);
            }
        }
    }
}

/// Parsing the rendering of an accepted result gives back the same table: rendering the
/// listed effects as token lines and parsing those lines is accepted and yields the very
/// pairs of code and effect that the first parse yielded.
pub proof fn lemma_render_round_trip(lines: Seq<Seq<Seq<char>>>, out: Seq<Entry>)
    requires
        entries_of(lines) is Ok,
        is_listing(out, table_of(entries_of(lines)->Ok_0)),
    ensures
        entries_of(rendered(out)) is Ok,
        table_of(entries_of(rendered(out))->Ok_0) == table_of(entries_of(lines)->Ok_0),
{
    let es = entries_of(lines)->Ok_0;
    let m = table_of(es);
    lemma_records_codes(lines, (lines.len() / 3) as nat);
    assert forall|i: int| 0 <= i < out.len() implies is_key_code(#[trigger] out[i].0) by {
        assert(m.contains_key(out[i].0));
        lemma_table_codes(es, out[i].0);
    }
    lemma_rendered_len(out);
    lemma_records_of_rendered(out, out.len());
    assert(out.take(out.len() as int) =~= out);
    assert(rendered(out).len() / 3 == out.len());
    lemma_table_of_unique(out);
    assert(table_of(out) =~= m);
}

} // verus!
