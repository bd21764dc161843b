use vstd::prelude::*;

verus! {

/// The fragments of `s` between commas, in order; `n` commas give `n + 1` fragments.
pub open spec fn split_commas(s: Seq<char>) -> Seq<Seq<char>>
    decreases s.len(),
{
    if s.len() == 0 {
        seq![Seq::empty()]
    } else {
        let front = split_commas(s.drop_last());
        if s.last() == ',' {
            front.push(Seq::empty())
        } else {
            front.update(front.len() - 1, front.last().push(s.last()))
        }
    }
}

/// Unicode's White_Space property.
pub open spec fn white_space(c: char) -> bool {
    let u = c as u32;
    (9 <= u && u <= 13) || u == 32 || u == 0x85 || u == 0xA0 || u == 0x1680 || (0x2000 <= u && u
        <= 0x200A) || u == 0x2028 || u == 0x2029 || u == 0x202F || u == 0x205F || u == 0x3000
}

/// `s` without its leading white space.
pub open spec fn trim_start(s: Seq<char>) -> Seq<char>
    decreases s.len(),
{
    if s.len() > 0 && white_space(s[0]) {
        trim_start(s.drop_first())
    } else {
        s
    }
}

/// `s` without its trailing white space.
pub open spec fn trim_end(s: Seq<char>) -> Seq<char>
    decreases s.len(),
{
    if s.len() > 0 && white_space(s.last()) {
        trim_end(s.drop_last())
    } else {
        s
    }
}

/// `s` without leading or trailing white space.
pub open spec fn trimmed(s: Seq<char>) -> Seq<char> {
    trim_end(trim_start(s))
}

/// The lowercase mapping of a text.
pub uninterp spec fn lower_of(s: Seq<char>) -> Seq<char>;

/// A fragment as it becomes a token: lowercased, then trimmed.
pub open spec fn normalized(f: Seq<char>) -> Seq<char> {
    trimmed(lower_of(f))
}

/// The normalized fragments that are not empty, in order.
pub open spec fn tokens_of_fragments(frags: Seq<Seq<char>>) -> Seq<Seq<char>>
    decreases frags.len(),
{
    if frags.len() == 0 {
        Seq::empty()
    } else {
        let rest = tokens_of_fragments(frags.drop_last());
        let t = normalized(frags.last());
        if t.len() > 0 {
            rest.push(t)
        } else {
            rest
        }
    }
}

/// The tokens of a line.
pub open spec fn tokens_of(line: Seq<char>) -> Seq<Seq<char>> {
    tokens_of_fragments(split_commas(line))
}

/// Relies on str::to_lowercase: the lowercase mapping of a text, which depends on its
/// characters alone.
#[verifier::external_body]
fn lowercase(s: &str) -> (r: String)
    ensures
        r@ == lower_of(s@),
{
    s.to_lowercase()
}

/// Whether `c` is white space.
pub fn is_white_space(c: char) -> (r: bool)
    ensures
        r == white_space(c),
{
    let u = c as u32;
    (9 <= u && u <= 13) || u == 32 || u == 0x85 || u == 0xA0 || u == 0x1680 || (0x2000 <= u && u
        <= 0x200A) || u == 0x2028 || u == 0x2029 || u == 0x202F || u == 0x205F || u == 0x3000
}

proof fn lemma_trim_start(s: Seq<char>, a: int)
    requires
        0 <= a <= s.len(),
        forall|i: int| 0 <= i < a ==> white_space(#[trigger] s[i]),
        a < s.len() ==> !white_space(s[a]),
    ensures
        trim_start(s) == s.subrange(a, s.len() as int),
    decreases a,
{
    if a > 0 {
        assert forall|i: int| 0 <= i < a - 1 implies white_space(#[trigger] s.drop_first()[i]) by {
            assert(s.drop_first()[i] == s[i + 1]);
        }
        lemma_trim_start(s.drop_first(), a - 1);
        assert(s.drop_first().subrange(a - 1, s.len() - 1) =~= s.subrange(a, s.len() as int));
    } else {
        assert(s.subrange(0, s.len() as int) =~= s);
    }
}

proof fn lemma_trim_end(s: Seq<char>, b: int)
    requires
        0 <= b <= s.len(),
        forall|i: int| b <= i < s.len() ==> white_space(#[trigger] s[i]),
        b > 0 ==> !white_space(s[b - 1]),
    ensures
        trim_end(s) == s.subrange(0, b),
    decreases s.len() - b,
{
    if b < s.len() {
        assert forall|i: int| b <= i < s.len() - 1 implies white_space(
            #[trigger] s.drop_last()[i],
        ) by {
            assert(s.drop_last()[i] == s[i]);
        }
        lemma_trim_end(s.drop_last(), b);
        assert(s.drop_last().subrange(0, b) =~= s.subrange(0, b));
    } else {
        assert(s.subrange(0, s.len() as int) =~= s);
    }
}

/// `s` without leading or trailing white space.
pub fn trim(s: &str) -> (r: &str)
    ensures
        r@ == trimmed(s@),
{
    let n = s.unicode_len();
    let mut a: usize = 0;
    while a < n && is_white_space(s.get_char(a))
        invariant
            n == s@.len(),
            a <= n,
            forall|i: int| 0 <= i < a ==> white_space(#[trigger] s@[i]),
        decreases n - a,
    {
        a = a + 1;
    }
    proof {
        lemma_trim_start(s@, a as int);
    }
    let ghost t = s@.subrange(a as int, n as int);
    let mut b: usize = n;
    while b > a && is_white_space(s.get_char(b - 1))
        invariant
            n == s@.len(),
            a <= b <= n,
            t == s@.subrange(a as int, n as int),
            forall|i: int| b <= i < n ==> white_space(#[trigger] s@[i]),
        decreases b,
    {
        b = b - 1;
    }
    proof {
        assert forall|i: int| b - a <= i < t.len() implies white_space(#[trigger] t[i]) by {
            assert(t[i] == s@[i + a]);
        }
        if b > a {
            assert(t[b - a - 1] == s@[b - 1]);
        }
        lemma_trim_end(t, b - a);
        assert(t.subrange(0, b - a) =~= s@.subrange(a as int, b as int));
    }
    s.substring_char(a, b)
}

/// The normalized form of a fragment: lowercased, then trimmed.
fn normalize(f: &str) -> (r: String)
    ensures
        r@ == normalized(f@),
{
    let low = lowercase(f);
    let t = trim(low.as_str());
    String::from_str(t)
}

proof fn lemma_split_nonempty(s: Seq<char>)
    ensures
        split_commas(s).len() >= 1,
    decreases s.len(),
{
    if s.len() > 0 {
        lemma_split_nonempty(s.drop_last());
    }
}

/// Splits a line on commas, lowercases and trims each fragment, and drops the fragments
/// that become empty.
pub fn tokenize(line: &str) -> (r: Vec<String>)
    ensures
        r@.map_values(|t: String| t@) == tokens_of(line@),
{
    let n = line.unicode_len();
    let mut out: Vec<String> = Vec::new();
    let mut start: usize = 0;
    let mut i: usize = 0;
    let ghost mut frags: Seq<Seq<char>> = Seq::empty();
    proof {
        assert(line@.take(0) =~= Seq::<char>::empty());
        assert(split_commas(line@.take(0)) =~= frags.push(line@.subrange(0, 0)));
        assert(out@.map_values(|t: String| t@) =~= tokens_of_fragments(frags));
    }
    while i < n
        invariant
            n == line@.len(),
            start <= i <= n,
            split_commas(line@.take(i as int)) == frags.push(line@.subrange(start as int, i as int)),
            out@.map_values(|t: String| t@) == tokens_of_fragments(frags),
        decreases n - i,
    {
        let c = line.get_char(i);
        let ghost cur = line@.subrange(start as int, i as int);
        proof {
            assert(line@.take(i + 1).drop_last() =~= line@.take(i as int));
            assert(line@.take(i + 1).last() == c);
            lemma_split_nonempty(line@.take(i as int));
        }
        if c == ',' {
            let frag = line.substring_char(start, i);
            let t = normalize(frag);
            proof {
                let nf = frags.push(cur);
                assert(nf.drop_last() =~= frags);
                assert(split_commas(line@.take(i + 1)) == nf.push(Seq::empty()));
                assert(line@.subrange(i + 1, i + 1) =~= Seq::<char>::empty());
                assert(split_commas(line@.take(i + 1)) =~= nf.push(
                    line@.subrange(i + 1, i + 1),
                ));
                frags = nf;
            }
            if t.unicode_len() > 0 {
                let ghost old_out = out@;
                out.push(t);
                assert(out@.map_values(|t: String| t@) =~= old_out.map_values(|t: String| t@).push(
                    t@,
                ));
            }
            start = i + 1;
        } else {
            proof {
                let front = frags.push(cur);
                assert(split_commas(line@.take(i + 1)) == front.update(
                    front.len() - 1,
                    cur.push(c),
                ));
                assert(cur.push(c) =~= line@.subrange(start as int, i + 1));
                assert(split_commas(line@.take(i + 1)) =~= frags.push(
                    line@.subrange(start as int, i + 1),
                ));
            }
        }
        i = i + 1;
    }
    let frag = line.substring_char(start, n);
    let t = normalize(frag);
    proof {
        let nf = frags.push(line@.subrange(start as int, n as int));
        assert(nf.drop_last() =~= frags);
        assert(line@.take(n as int) =~= line@);
        frags = nf;
    }
    if t.unicode_len() > 0 {
        let ghost old_out = out@;
        out.push(t);
        assert(out@.map_values(|t: String| t@) =~= old_out.map_values(|t: String| t@).push(t@));
    }
    out
}

} // verus!
