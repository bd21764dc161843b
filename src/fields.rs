use vstd::prelude::*;
use crate::types::{
    color_name, effect_name, Color, EffectKind, EffectModel, Entry, ErrorModel, KeyConfig,
    ParseError,
};

verus! {

/// What a whole key token must match: one or more ASCII letters.
pub const KEY_PATTERN: &'static str = "^[A-Za-z]+$";

/// Whether `c` is an ASCII letter.
pub open spec fn is_ascii_letter(c: char) -> bool {
    ('a' <= c && c <= 'z') || ('A' <= c && c <= 'Z')
}

/// Whether `t` can name a key: at least one character, all of them ASCII letters.
pub open spec fn is_key_code(t: Seq<char>) -> bool {
    t.len() > 0 && forall|i: int| 0 <= i < t.len() ==> is_ascii_letter(#[trigger] t[i])
}

/// The first token of a keys line that cannot name a key, if any.
pub open spec fn first_bad_key(keys: Seq<Seq<char>>) -> Option<Seq<char>>
    decreases keys.len(),
{
    if keys.len() == 0 {
        None
    } else {
        match first_bad_key(keys.drop_last()) {
            Some(k) => Some(k),
            None => if is_key_code(keys.last()) {
                None
            } else {
                Some(keys.last())
            },
        }
    }
}

/// The effect kind that an effect line names.
pub open spec fn effect_of(line: Seq<Seq<char>>) -> Result<EffectKind, ErrorModel> {
    if line.len() != 1 {
        Err(ErrorModel::InvalidEffectArity)
    } else if line[0] == effect_name(EffectKind::Static) {
        Ok(EffectKind::Static)
    } else if line[0] == effect_name(EffectKind::Wave) {
        Ok(EffectKind::Wave)
    } else if line[0] == effect_name(EffectKind::Disco) {
        Ok(EffectKind::Disco)
    } else {
        Err(ErrorModel::UnknownEffect(line[0]))
    }
}

/// The color that a token names, if any.
pub open spec fn color_of(t: Seq<char>) -> Option<Color> {
    if t == color_name(Color::Green) {
        Some(Color::Green)
    } else if t == color_name(Color::Blue) {
        Some(Color::Blue)
    } else if t == color_name(Color::Red) {
        Some(Color::Red)
    } else if t == color_name(Color::Yellow) {
        Some(Color::Yellow)
    } else if t == color_name(Color::Orange) {
        Some(Color::Orange)
    } else {
        None
    }
}

/// The colors of a colors line in order, or the first token that names no color.
pub open spec fn colors_of(line: Seq<Seq<char>>) -> Result<Seq<Color>, Seq<char>>
    decreases line.len(),
{
    if line.len() == 0 {
        Ok(Seq::empty())
    } else {
        match colors_of(line.drop_last()) {
            Err(t) => Err(t),
            Ok(cs) => match color_of(line.last()) {
                Some(c) => Ok(cs.push(c)),
                None => Err(line.last()),
            },
        }
    }
}

/// The effect of a kind with the given colors, where their number suits the kind.
pub open spec fn effect_with(kind: EffectKind, cs: Seq<Color>) -> Result<EffectModel, ErrorModel> {
    match kind {
        EffectKind::Static => if cs.len() == 1 {
            Ok(EffectModel::Static(cs[0]))
        } else {
            Err(ErrorModel::InvalidColorCount(EffectKind::Static))
        },
        EffectKind::Wave => Ok(EffectModel::Wave(cs)),
        EffectKind::Disco => if cs.len() == 3 {
            Ok(EffectModel::Disco(cs[0], cs[1], cs[2]))
        } else {
            Err(ErrorModel::InvalidColorCount(EffectKind::Disco))
        },
    }
}

/// The effect that a triple of token lines declares: keys are checked first, then the
/// effect, then the colors, then their number.
pub open spec fn triple_effect(
    keys: Seq<Seq<char>>,
    effect: Seq<Seq<char>>,
    colors: Seq<Seq<char>>,
) -> Result<EffectModel, ErrorModel> {
    match first_bad_key(keys) {
        Some(k) => Err(ErrorModel::InvalidKey(k)),
        None => match effect_of(effect) {
            Err(e) => Err(e),
            Ok(kind) => match colors_of(colors) {
                Err(t) => Err(ErrorModel::InvalidColor(t)),
                Ok(cs) => effect_with(kind, cs),
            },
        },
    }
}

/// Each key of a triple paired with the triple's effect, in keys-line order.
pub open spec fn triple_records(
    keys: Seq<Seq<char>>,
    effect: Seq<Seq<char>>,
    colors: Seq<Seq<char>>,
) -> Result<Seq<Entry>, ErrorModel> {
    match triple_effect(keys, effect, colors) {
        Ok(e) => Ok(keys.map_values(|k: Seq<char>| (k, e))),
        Err(err) => Err(err),
    }
}

/// Relies on regex::Regex::new and regex::Regex::is_match: `KEY_PATTERN` is a valid
/// pattern, so `new` succeeds; anchored by `^` and `$` (not in multi-line mode), the class
/// `[A-Za-z]` repeated by `+` matches exactly the non-empty texts of ASCII letters.
#[verifier::external_body]
fn matches_key_pattern(pattern: &str, text: &str) -> (r: bool)
    requires
        pattern@ == KEY_PATTERN@,
    ensures
        r == is_key_code(text@),
{
    regex::Regex::new(pattern).unwrap().is_match(text)
}

/// Whether two texts hold the same characters.
pub fn same_text(a: &str, b: &str) -> (r: bool)
    ensures
        r == (a@ == b@),
{
    let n = a.unicode_len();
    if n != b.unicode_len() {
        return false;
    }
    let mut i: usize = 0;
    while i < n
        invariant
            n == a@.len() == b@.len(),
            i <= n,
            a@.take(i as int) == b@.take(i as int),
        decreases n - i,
    {
        if a.get_char(i) != b.get_char(i) {
            return false;
        }
        assert(a@.take(i + 1) =~= a@.take(i as int).push(a@[i as int]));
        assert(b@.take(i + 1) =~= b@.take(i as int).push(b@[i as int]));
        i = i + 1;
    }
    assert(a@.take(n as int) =~= a@);
    assert(b@.take(n as int) =~= b@);
    true
}

/// Checks that every token of a keys line names a key, stopping at the first that does not.
pub fn parse_keys(keys_line: &Vec<String>) -> (r: Result<&Vec<String>, ParseError>)
    ensures
        match first_bad_key(keys_line.deep_view()) {
            Some(k) => r matches Err(e) && e@ == ErrorModel::InvalidKey(k),
            None => r == Ok::<&Vec<String>, ParseError>(keys_line),
        },
{
    let ghost keys = keys_line.deep_view();
    let mut i: usize = 0;
    while i < keys_line.len()
        invariant
            i <= keys_line.len(),
            keys == keys_line.deep_view(),
            first_bad_key(keys.take(i as int)) is None,
        decreases keys_line.len() - i,
    {
        assert(keys.take(i + 1).drop_last() =~= keys.take(i as int));
        assert(keys.take(i + 1).last() == keys_line[i as int]@);
        if !matches_key_pattern(KEY_PATTERN, keys_line[i].as_str()) {
            proof {
                lemma_first_bad_key_prefix(keys, i as int + 1);
            }
            return Err(ParseError::InvalidKey(keys_line[i].clone()));
        }
        i = i + 1;
    }
    assert(keys.take(i as int) =~= keys);
    Ok(keys_line)
}

/// A bad key in a prefix is the first bad key of the whole line.
proof fn lemma_first_bad_key_prefix(keys: Seq<Seq<char>>, n: int)
    requires
        0 <= n <= keys.len(),
        first_bad_key(keys.take(n)) is Some,
    ensures
        first_bad_key(keys) == first_bad_key(keys.take(n)),
    decreases keys.len() - n,
{
    if n < keys.len() {
        assert(keys.take(n + 1).drop_last() =~= keys.take(n));
        lemma_first_bad_key_prefix(keys, n + 1);
    } else {
        assert(keys.take(n) =~= keys);
    }
}

/// Classifies an effect line, which must hold exactly one known effect word.
pub fn parse_effects(effects_line: &Vec<String>) -> (r: Result<EffectKind, ParseError>)
    ensures
        match effect_of(effects_line.deep_view()) {
            Ok(k) => r == Ok::<EffectKind, ParseError>(k),
            Err(e) => r matches Err(x) && x@ == e,
        },
{
    let ghost line = effects_line.deep_view();
    if effects_line.len() != 1 {
        return Err(ParseError::InvalidEffectArity);
    }
    assert(line[0] == effects_line[0]@);
    let t = effects_line[0].as_str();
    if same_text(t, EffectKind::Static.name()) {
        Ok(EffectKind::Static)
    } else if same_text(t, EffectKind::Wave.name()) {
        Ok(EffectKind::Wave)
    } else if same_text(t, EffectKind::Disco.name()) {
        Ok(EffectKind::Disco)
    } else {
        Err(ParseError::UnknownEffect(effects_line[0].clone()))
    }
}

/// The color that a token names, if any.
pub fn parse_color(t: &str) -> (r: Option<Color>)
    ensures
        r == color_of(t@),
{
    if same_text(t, Color::Green.name()) {
        Some(Color::Green)
    } else if same_text(t, Color::Blue.name()) {
        Some(Color::Blue)
    } else if same_text(t, Color::Red.name()) {
        Some(Color::Red)
    } else if same_text(t, Color::Yellow.name()) {
        Some(Color::Yellow)
    } else if same_text(t, Color::Orange.name()) {
        Some(Color::Orange)
    } else {
        None
    }
}

/// A bad color in a prefix is the first bad color of the whole line.
proof fn lemma_colors_prefix(line: Seq<Seq<char>>, n: int)
    requires
        0 <= n <= line.len(),
        colors_of(line.take(n)) is Err,
    ensures
        colors_of(line) == colors_of(line.take(n)),
    decreases line.len() - n,
{
    if n < line.len() {
        assert(line.take(n + 1).drop_last() =~= line.take(n));
        lemma_colors_prefix(line, n + 1);
    } else {
        assert(line.take(n) =~= line);
    }
}

/// Reads the colors of a colors line in order, stopping at the first token that names none.
pub fn parse_colors(colors_line: &Vec<String>) -> (r: Result<Vec<Color>, ParseError>)
    ensures
        match colors_of(colors_line.deep_view()) {
            Ok(cs) => r matches Ok(v) && v@ == cs,
            Err(t) => r matches Err(e) && e@ == ErrorModel::InvalidColor(t),
        },
{
    let ghost line = colors_line.deep_view();
    let mut colors: Vec<Color> = Vec::new();
    let mut i: usize = 0;
    assert(line.take(0) =~= Seq::<Seq<char>>::empty());
    while i < colors_line.len()
        invariant
            i <= colors_line.len(),
            line == colors_line.deep_view(),
            colors_of(line.take(i as int)) == Ok::<Seq<Color>, Seq<char>>(colors@),
        decreases colors_line.len() - i,
    {
        assert(line.take(i + 1).drop_last() =~= line.take(i as int));
        assert(line.take(i + 1).last() == colors_line[i as int]@);
        match parse_color(colors_line[i].as_str()) {
            Some(c) => {
                colors.push(c);
            },
            None => {
                proof {
                    lemma_colors_prefix(line, i as int + 1);
                }
                return Err(ParseError::InvalidColor(colors_line[i].clone()));
            },
        }
        i = i + 1;
    }
    assert(line.take(i as int) =~= line);
    Ok(colors)
}

/// Whether an exec result agrees with a result of the model.
pub open spec fn agrees(r: Result<Vec<KeyConfig>, ParseError>, s: Result<Seq<Entry>, ErrorModel>) -> bool {
    match s {
        Ok(es) => r matches Ok(v) && v@.map_values(|k: KeyConfig| k@) == es,
        Err(e) => r matches Err(x) && x@ == e,
    }
}

/// Builds one effect per key of a triple of token lines, after checking the keys, the
/// effect, the colors and the number of colors, in that order.
pub fn parse_key_config(
    keys_line: &Vec<String>,
    effect_line: &Vec<String>,
    colors_line: &Vec<String>,
) -> (r: Result<Vec<KeyConfig>, ParseError>)
    ensures
        agrees(
            r,
            triple_records(keys_line.deep_view(), effect_line.deep_view(), colors_line.deep_view()),
        ),
{
    let ghost ks = keys_line.deep_view();
    let keys = parse_keys(keys_line)?;
    let effect = parse_effects(effect_line)?;
    let colors = parse_colors(colors_line)?;
    let ghost eff = triple_effect(ks, effect_line.deep_view(), colors_line.deep_view());
    let mut key_configs: Vec<KeyConfig> = Vec::new();
    if effect == EffectKind::Static && colors.len() != 1 {
        return Err(ParseError::InvalidColorCount(EffectKind::Static));
    }
    if effect == EffectKind::Disco && colors.len() != 3 {
        return Err(ParseError::InvalidColorCount(EffectKind::Disco));
    }
    let mut i: usize = 0;
    while i < keys.len()
        invariant
            i <= keys.len(),
            keys == keys_line,
            ks == keys_line.deep_view(),
            eff is Ok,
            effect_with(effect, colors@) == eff,
            key_configs@.map_values(|k: KeyConfig| k@) == ks.take(i as int).map_values(
                |k: Seq<char>| (k, eff->Ok_0),
            ),
        decreases keys.len() - i,
    {
        let code = keys[i].clone();
        let kc = match effect {
            EffectKind::Static => KeyConfig::Static { code, color: colors[0] },
            EffectKind::Wave => KeyConfig::Wave { code, colors: copy_colors(&colors) },
            EffectKind::Disco => KeyConfig::Disco {
                code,
                color1: colors[0],
                color2: colors[1],
                color3: colors[2],
            },
        };
        assert(ks[i as int] == keys_line[i as int]@);
        assert(kc@ == (ks[i as int], eff->Ok_0));
        let ghost prev = key_configs@;
        key_configs.push(kc);
        assert(ks.take(i + 1) =~= ks.take(i as int).push(ks[i as int]));
        assert(key_configs@.map_values(|k: KeyConfig| k@) =~= prev.map_values(|k: KeyConfig| k@).push(kc@));
        assert(ks.take(i + 1).map_values(|k: Seq<char>| (k, eff->Ok_0)) =~= ks.take(
            i as int,
        ).map_values(|k: Seq<char>| (k, eff->Ok_0)).push((ks[i as int], eff->Ok_0)));
        assert(key_configs@.map_values(|k: KeyConfig| k@) =~= ks.take(i + 1).map_values(
            |k: Seq<char>| (k, eff->Ok_0),
        ));
        i = i + 1;
    }
    assert(ks.take(i as int) =~= ks);
    Ok(key_configs)
}

/// A copy of a list of colors.
fn copy_colors(v: &Vec<Color>) -> (r: Vec<Color>)
    ensures
        r@ == v@,
{
    let mut r: Vec<Color> = Vec::new();
    let mut i: usize = 0;
    while i < v.len()
        invariant
            i <= v.len(),
            r@ == v@.take(i as int),
        decreases v.len() - i,
    {
        r.push(v[i]);
        assert(r@ =~= v@.take(i + 1));
        i = i + 1;
    }
    assert(v@.take(i as int) =~= v@);
    r
}

} // verus!
