use vstd::prelude::*;
use crate::aggregate::{entries, insert_entry, is_listing, represents, sort_by_code, table_of};
use crate::fields::{parse_key_config, triple_effect, triple_records};
use crate::tokens::{tokenize, tokens_of};
use crate::types::{EffectKind, EffectModel, Entry, ErrorModel, KeyConfig, ParseError};

verus! {

/// The entries that the first `n` triples of `lines` declare, in order, or the first error.
pub open spec fn records_of(lines: Seq<Seq<Seq<char>>>, n: nat) -> Result<Seq<Entry>, ErrorModel>
    decreases n,
{
    if n == 0 {
        Ok(Seq::empty())
    } else {
        match records_of(lines, (n - 1) as nat) {
            Err(e) => Err(e),
            Ok(rs) => match triple_records(
                lines[3 * (n - 1)],
                lines[3 * (n - 1) + 1],
                lines[3 * (n - 1) + 2],
            ) {
                Err(e) => Err(e),
                Ok(r) => Ok(rs + r),
            },
        }
    }
}

/// The entries that tokenized lines declare, or why they are rejected.
pub open spec fn entries_of(lines: Seq<Seq<Seq<char>>>) -> Result<Seq<Entry>, ErrorModel> {
    if lines.len() % 3 != 0 {
        Err(ErrorModel::MalformedInput)
    } else {
        records_of(lines, (lines.len() / 3) as nat)
    }
}

/// `r` is the outcome of parsing tokenized lines: the error of the model, or the entries
/// of the final table in ascending order of code.
pub open spec fn parse_outcome(
    r: Result<Vec<KeyConfig>, ParseError>,
    lines: Seq<Seq<Seq<char>>>,
) -> bool {
    match entries_of(lines) {
        Err(e) => r matches Err(x) && x@ == e,
        Ok(es) => r matches Ok(v) && is_listing(entries(v@), table_of(es)),
    }
}

/// The tokens of each raw line.
pub open spec fn tokenized(lines: Seq<&str>) -> Seq<Seq<Seq<char>>> {
    lines.map_values(|l: &str| tokens_of(l@))
}

/// The message that reports a rejection.
pub open spec fn message_of(e: ErrorModel) -> Seq<char> {
    match e {
        ErrorModel::MalformedInput => "INVALID: Missing lines to complete the config"@,
        ErrorModel::InvalidKey(t) => "INVALID: Invalid key token: "@ + t,
        ErrorModel::InvalidEffectArity => "INVALID: Only one effect expected by line"@,
        ErrorModel::UnknownEffect(t) => "INVALID: Unknown effect: "@ + t,
        ErrorModel::InvalidColor(t) => "INVALID: Invalid color: "@ + t,
        ErrorModel::InvalidColorCount(EffectKind::Static) =>
            "INVALID: Static effects are single color only"@,
        ErrorModel::InvalidColorCount(EffectKind::Disco) =>
            "INVALID: Disco config requires 3 colors"@,
        ErrorModel::InvalidColorCount(EffectKind::Wave) =>
            "INVALID: Wave effects take any number of colors"@,
    }
}

impl ParseError {
    /// A readable message for this error, starting with "INVALID:".
    pub fn message(&self) -> (r: String)
        ensures
            r@ == message_of(self@),
    {
        match self {
            ParseError::MalformedInput => String::from_str(
                "INVALID: Missing lines to complete the config",
            ),
            ParseError::InvalidKey(t) => {
                let mut s = String::from_str("INVALID: Invalid key token: ");
                s.append(t.as_str());
                s
            },
            ParseError::InvalidEffectArity => String::from_str(
                "INVALID: Only one effect expected by line",
            ),
            ParseError::UnknownEffect(t) => {
                let mut s = String::from_str("INVALID: Unknown effect: ");
                s.append(t.as_str());
                s
            },
            ParseError::InvalidColor(t) => {
                let mut s = String::from_str("INVALID: Invalid color: ");
                s.append(t.as_str());
                s
            },
            ParseError::InvalidColorCount(EffectKind::Static) => String::from_str(
                "INVALID: Static effects are single color only",
            ),
            ParseError::InvalidColorCount(EffectKind::Disco) => String::from_str(
                "INVALID: Disco config requires 3 colors",
            ),
            ParseError::InvalidColorCount(EffectKind::Wave) => String::from_str(
                "INVALID: Wave effects take any number of colors",
            ),
        }
    }
}

/// Once a triple is rejected, every longer run of triples is rejected the same way.
pub proof fn lemma_records_err(lines: Seq<Seq<Seq<char>>>, k: nat, n: nat)
    requires
        k <= n,
        records_of(lines, k) is Err,
    ensures
        records_of(lines, n) == records_of(lines, k),
    decreases n,
{
    if n > k {
        lemma_records_err(lines, k, (n - 1) as nat);
    }
}

/// The effect that triple `t` of `lines` declares.
pub open spec fn effect_of_triple(lines: Seq<Seq<Seq<char>>>, t: int) -> Result<EffectModel, ErrorModel> {
    triple_effect(lines[3 * t], lines[3 * t + 1], lines[3 * t + 2])
}

/// A run of triples that is accepted has every shorter run accepted.
proof fn lemma_records_ok_prefix(lines: Seq<Seq<Seq<char>>>, k: nat, n: nat)
    requires
        k <= n,
        records_of(lines, n) is Ok,
    ensures
        records_of(lines, k) is Ok,
{
    if records_of(lines, k) is Err {
        lemma_records_err(lines, k, n);
    }
}

/// Entries whose codes all differ from `k` leave the table's pair for `k` as it was.
proof fn lemma_table_untouched(a: Seq<Entry>, b: Seq<Entry>, k: Seq<char>)
    requires
        forall|i: int| 0 <= i < b.len() ==> (#[trigger] b[i]).0 != k,
    ensures
        table_of(a + b).contains_key(k) == table_of(a).contains_key(k),
        table_of(a).contains_key(k) ==> table_of(a + b)[k] == table_of(a)[k],
    decreases b.len(),
{
    if b.len() == 0 {
        assert(a + b =~= a);
    } else {
        assert((a + b).drop_last() =~= a + b.drop_last());
        assert(b.last() == b[b.len() - 1]);
        lemma_table_untouched(a, b.drop_last(), k);
    }
}

/// Where some entry of `b` has code `k`, and all those that do carry effect `e`, the table
/// built from `a` then `b` maps `k` to `e`.
proof fn lemma_table_set_by(a: Seq<Entry>, b: Seq<Entry>, k: Seq<char>, e: EffectModel)
    requires
        exists|i: int| 0 <= i < b.len() && (#[trigger] b[i]).0 == k,
        forall|i: int| 0 <= i < b.len() && (#[trigger] b[i]).0 == k ==> b[i].1 == e,
    ensures
        table_of(a + b).contains_key(k),
        table_of(a + b)[k] == e,
    decreases b.len(),
{
    assert((a + b).drop_last() =~= a + b.drop_last());
    assert((a + b).last() == b[b.len() - 1]);
    if b[b.len() - 1].0 != k {
        let i = choose|i: int| 0 <= i < b.len() && (#[trigger] b[i]).0 == k;
        assert(b.drop_last()[i] == b[i]);
        lemma_table_set_by(a, b.drop_last(), k, e);
    }
}

/// The table of the first `n` triples maps `k` to the effect of triple `t`, the last of
/// them whose keys line holds `k`.
proof fn lemma_last_declaration_wins(lines: Seq<Seq<Seq<char>>>, t: int, k: Seq<char>, n: nat)
    requires
        0 <= t < n,
        records_of(lines, n) is Ok,
        lines[3 * t].contains(k),
        forall|u: int| t < u < n ==> !(#[trigger] lines[3 * u]).contains(k),
    ensures
        effect_of_triple(lines, t) is Ok,
        table_of(records_of(lines, n)->Ok_0).contains_key(k),
        table_of(records_of(lines, n)->Ok_0)[k] == effect_of_triple(lines, t)->Ok_0,
    decreases n,
{
    let m = (n - 1) as nat;
    lemma_records_ok_prefix(lines, m, n);
    let prev = records_of(lines, m)->Ok_0;
    let keys = lines[3 * m as int];
    let eff = effect_of_triple(lines, m as int);
    assert(eff is Ok);
    let recs = keys.map_values(|c: Seq<char>| (c, eff->Ok_0));
    assert(records_of(lines, n)->Ok_0 == prev + recs);
    if m == t {
        let i = choose|i: int| 0 <= i < keys.len() && keys[i] == k;
        assert(recs[i].0 == k);
        lemma_table_set_by(prev, recs, k, eff->Ok_0);
    } else {
        assert(!lines[3 * m as int].contains(k));
        assert forall|i: int| 0 <= i < recs.len() implies (#[trigger] recs[i]).0 != k by {
            assert(recs[i].0 == keys[i]);
        }
        lemma_last_declaration_wins(lines, t, k, m);
        lemma_table_untouched(prev, recs, k);
    }
}

/// Later declarations override earlier ones: when triple `t` declares key `k` on its keys
/// line and no later triple does, the accepted parse lists `k` with the effect of triple
/// `t`, whatever effect earlier triples gave it.
pub proof fn lemma_override(lines: Seq<Seq<Seq<char>>>, t: int, k: Seq<char>, out: Seq<Entry>)
    requires
        entries_of(lines) is Ok,
        is_listing(out, table_of(entries_of(lines)->Ok_0)),
        0 <= t < lines.len() / 3,
        lines[3 * t].contains(k),
        forall|u: int| t < u < lines.len() / 3 ==> !(#[trigger] lines[3 * u]).contains(k),
    ensures
        effect_of_triple(lines, t) is Ok,
        exists|i: int|
            0 <= i < out.len() && out[i] == (k, effect_of_triple(lines, t)->Ok_0),
{
    let n = (lines.len() / 3) as nat;
    lemma_last_declaration_wins(lines, t, k, n);
    let m = table_of(entries_of(lines)->Ok_0);
    assert(m.contains_key(k));
    let i = choose|i: int| 0 <= i < out.len() && out[i].0 == k;
    assert(m.contains_key(out[i].0) && m[out[i].0] == out[i].1);
}

/// Groups tokenized lines into triples, builds the effects of each triple in order, keeps
/// the last effect declared for each code, and lists the result in ascending order of code.
pub fn parse_tokens(tokens: Vec<Vec<String>>) -> (r: Result<Vec<KeyConfig>, ParseError>)
    ensures
        parse_outcome(r, tokens.deep_view()),
{
    let ghost lines = tokens.deep_view();
    if tokens.len() % 3 != 0 {
        return Err(ParseError::MalformedInput);
    }
    let n = tokens.len() / 3;
    let mut table: Vec<KeyConfig> = Vec::new();
    let ghost mut acc: Seq<Entry> = Seq::empty();
    let mut i: usize = 0;
    assert(represents(entries(table@), table_of(acc)));
    while i < n
        invariant
            i <= n,
            3 * n == tokens.len(),
            lines == tokens.deep_view(),
            records_of(lines, i as nat) == Ok::<Seq<Entry>, ErrorModel>(acc),
            represents(entries(table@), table_of(acc)),
        decreases n - i,
    {
        assert(lines[3 * i as int] == tokens[3 * i as int].deep_view());
        assert(lines[3 * i + 1] == tokens[3 * i + 1].deep_view());
        assert(lines[3 * i + 2] == tokens[3 * i + 2].deep_view());
        let key_configs = match parse_key_config(
            &tokens[3 * i],
            &tokens[3 * i + 1],
            &tokens[3 * i + 2],
        ) {
            Ok(v) => v,
            Err(e) => {
                proof {
                    lemma_records_err(lines, (i + 1) as nat, n as nat);
                }
                return Err(e);
            },
        };
        let ghost recs = entries(key_configs@);
        let mut kcs = key_configs;
        let ghost mut j: int = 0;
        assert(recs.skip(0) =~= recs);
        assert(acc + recs.take(0) =~= acc);
        while kcs.len() > 0
            invariant
                0 <= j <= recs.len(),
                entries(kcs@) == recs.skip(j),
                represents(entries(table@), table_of(acc + recs.take(j))),
            decreases kcs.len(),
        {
            let ghost before = kcs@;
            assert(entries(before).len() == before.len());
            assert(recs.skip(j).len() == recs.len() - j);
            let kc = kcs.remove(0);
            proof {
                assert(entries(before)[0] == kc@);
                assert(recs.skip(j)[0] == recs[j]);
                assert(kc@ == recs[j]);
                assert(kcs@ =~= before.subrange(1, before.len() as int));
                assert forall|k: int| 0 <= k < kcs@.len() implies #[trigger] entries(kcs@)[k]
                    == recs.skip(j + 1)[k] by {
                    assert(entries(kcs@)[k] == entries(before)[k + 1]);
                    assert(recs.skip(j)[k + 1] == recs.skip(j + 1)[k]);
                }
                assert(entries(kcs@) =~= recs.skip(j + 1));
                let s = acc + recs.take(j + 1);
                assert(s.drop_last() =~= acc + recs.take(j));
                assert(s.last() == kc@);
            }
            insert_entry(&mut table, kc, Ghost(table_of(acc + recs.take(j))));
            proof {
                j = j + 1;
            }
        }
        proof {
            assert(recs.take(j) =~= recs);
            acc = acc + recs;
        }
        i = i + 1;
    }
    let sorted = sort_by_code(table, Ghost(table_of(acc)));
    Ok(sorted)
}

/// Parses the lines of a lighting configuration into its effects, one per key code, in
/// ascending order of code, or the first error met.
pub fn parse_config(lines: Vec<&str>) -> (r: Result<Vec<KeyConfig>, ParseError>)
    ensures
        parse_outcome(r, tokenized(lines@)),
{
    let mut tokens: Vec<Vec<String>> = Vec::new();
    let mut i: usize = 0;
    while i < lines.len()
        invariant
            i <= lines.len(),
            tokens.deep_view() == tokenized(lines@.take(i as int)),
        decreases lines.len() - i,
    {
        let t = tokenize(lines[i]);
        let ghost before = tokens.deep_view();
        tokens.push(t);
        assert(t.deep_view() =~= t@.map_values(|s: String| s@));
        assert(tokens.deep_view() =~= before.push(t.deep_view()));
        assert(lines@.take(i + 1) =~= lines@.take(i as int).push(lines@[i as int]));
        assert(tokenized(lines@.take(i + 1)) =~= tokenized(lines@.take(i as int)).push(
            tokens_of(lines@[i as int]@),
        ));
        i = i + 1;
    }
    assert(lines@.take(i as int) =~= lines@);
    parse_tokens(tokens)
}

/// Parses the lines of a lighting configuration; a rejection is reported as a message that
/// starts with "INVALID:".
pub fn parse(lines: Vec<&str>) -> (r: Result<Vec<KeyConfig>, String>)
    ensures
        match entries_of(tokenized(lines@)) {
            Err(e) => r matches Err(m) && m@ == message_of(e),
            Ok(es) => r matches Ok(v) && is_listing(entries(v@), table_of(es)),
        },
{
    match parse_config(lines) {
        Ok(v) => Ok(v),
        Err(e) => Err(e.message()),
    }
}

} // verus!
