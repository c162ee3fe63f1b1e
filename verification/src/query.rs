//! Parameters of a start address: the `key=value` pairs of its search part.
use vstd::prelude::*;

verus! {

/// One parameter of a search string, key and value both decoded.
#[derive(Debug)]
pub struct Param {
    pub key: String,
    pub value: String,
}

/// What percent-decoding makes of `s`: every `%xx` with two hex digits
/// replaced by the byte it names, and the bytes read as UTF-8; `None` where
/// they are not UTF-8.
pub uninterp spec fn percent_decoded(s: Seq<char>) -> Option<Seq<char>>;

/// The decoded text, or the empty text where decoding fails.
pub open spec fn decoded_or_empty(s: Seq<char>) -> Seq<char> {
    match percent_decoded(s) {
        Some(d) => d,
        None => Seq::empty(),
    }
}

/// The first place in `from..end` where `s` holds `c`; `end` if there is
/// none.
pub open spec fn find_in(s: Seq<char>, c: char, from: int, end: int) -> int
    decreases end - from,
{
    if from >= end {
        end
    } else if s[from] == c {
        from
    } else {
        find_in(s, c, from + 1, end)
    }
}

/// The first place at or behind `from` where `s` holds another character than
/// `c`; the length of `s` if there is none.
pub open spec fn skip_all(s: Seq<char>, c: char, from: int) -> int
    decreases s.len() - from,
{
    if from >= s.len() {
        s.len() as int
    } else if s[from] != c {
        from
    } else {
        skip_all(s, c, from + 1)
    }
}

/// The text `t` as a key or a value: decoded, or as it stands.
pub open spec fn text_of(t: Seq<char>, decode: bool) -> Seq<char> {
    if decode {
        decoded_or_empty(t)
    } else {
        t
    }
}

/// The parameter that the piece `from..end` of `s` holds: the text before its
/// first `=` as key and the text behind it as value, both decoded where
/// `decode` says so. A piece without `=` holds none.
pub open spec fn piece_param(s: Seq<char>, from: int, end: int, decode: bool) -> Option<
    (Seq<char>, Seq<char>),
> {
    let eq = find_in(s, '=', from, end);
    if eq < end {
        Some((text_of(s.subrange(from, eq), decode), text_of(s.subrange(eq + 1, end), decode)))
    } else {
        None
    }
}

/// The parameters of the pieces of `s` from `from` on, where `&` parts the
/// pieces, in the order of the pieces.
pub open spec fn params_from(s: Seq<char>, from: int, decode: bool) -> Seq<
    (Seq<char>, Seq<char>),
>
    decreases s.len() - from,
{
    if from > s.len() {
        Seq::empty()
    } else {
        let end = find_in(s, '&', from, s.len() as int);
        let head = match piece_param(s, from, end, decode) {
            Some(p) => seq![p],
            None => Seq::empty(),
        };
        if end >= s.len() || end < from {
            head
        } else {
            head + params_from(s, end + 1, decode)
        }
    }
}

/// The map that the first `k` pairs make when they are inserted one after
/// the other: of two pairs with the same key the later one stays.
pub open spec fn map_upto(pairs: Seq<(Seq<char>, Seq<char>)>, k: int) -> Map<Seq<char>, Seq<char>>
    decreases k,
{
    if k <= 0 {
        Map::empty()
    } else {
        map_upto(pairs, k - 1).insert(pairs[k - 1].0, pairs[k - 1].1)
    }
}

/// The map that the pairs make when they are inserted one after the other.
pub open spec fn map_of(pairs: Seq<(Seq<char>, Seq<char>)>) -> Map<Seq<char>, Seq<char>> {
    map_upto(pairs, pairs.len() as int)
}

/// The parameters of the search string `s`: leading question marks are
/// dropped, `&` parts the pieces, and each piece with a `=` gives one
/// parameter.
pub open spec fn search_params(s: Seq<char>) -> Map<Seq<char>, Seq<char>> {
    map_of(params_from(s, skip_all(s, '?', 0), true))
}

/// The parameters of a search string when nothing is decoded: what
/// [`search_params`] are for a string without `%`.
pub open spec fn plain_params(s: Seq<char>) -> Map<Seq<char>, Seq<char>> {
    map_of(params_from(s, skip_all(s, '?', 0), false))
}

/// Key and value of every parameter.
pub open spec fn param_views(params: Seq<Param>) -> Seq<(Seq<char>, Seq<char>)> {
    Seq::new(params.len(), |i: int| (params[i].key@, params[i].value@))
}

/// No key occurs twice.
pub open spec fn distinct_keys(params: Seq<Param>) -> bool {
    forall|i: int, j: int|
        0 <= i < j < params.len() ==> (#[trigger] params[i]).key@ != (#[trigger] params[j]).key@
}

/// Calls `urlencoding::decode`, which replaces every `%` that two hex digits
/// follow by the byte they name, leaves every other character as it is, and
/// fails where the bytes that come out are not UTF-8. Nothing is proved of
/// it: the contract gives its result a name, which is sound because the
/// result depends on the argument alone, and says the one thing that the
/// function does before all else: a text without `%` comes back as it is.
#[verifier::external_body]
fn percent_decode(s: &str) -> (r: Option<String>)
    ensures
        match r {
            Some(d) => percent_decoded(s@) == Some(d@),
            None => percent_decoded(s@) is None,
        },
        !s@.contains('%') ==> r is Some && r->Some_0@ == s@,
{
    match urlencoding::decode(s) {
        Ok(d) => Some(d.into_owned()),
        Err(_) => None,
    }
}

/// The decoded text, or the empty text where decoding fails.
fn decode_or_empty(s: &str) -> (r: String)
    ensures
        r@ == decoded_or_empty(s@),
        !s@.contains('%') ==> r@ == s@,
{
    match percent_decode(s) {
        Some(d) => d,
        None => String::new(),
    }
}

/// The first place in `from..end` where `s` holds `c`; `end` if there is
/// none.
fn find_char(s: &str, c: char, from: usize, end: usize) -> (at: usize)
    requires
        from <= end <= s@.len(),
    ensures
        at == find_in(s@, c, from as int, end as int),
        from <= at <= end,
{
    let mut j: usize = from;
    while j < end
        invariant
            from <= j <= end,
            end <= s@.len(),
            find_in(s@, c, from as int, end as int) == find_in(s@, c, j as int, end as int),
        decreases end - j,
    {
        if s.get_char(j) == c {
            return j;
        }
        j += 1;
    }
    j
}

/// Replacing the value of a key that occurs once is inserting into the map.
proof fn lemma_replace_is_insert(
    pairs: Seq<(Seq<char>, Seq<char>)>,
    i: int,
    value: Seq<char>,
    k: int,
)
    requires
        0 <= i < k <= pairs.len(),
        forall|j: int| 0 <= j < pairs.len() && j != i ==> (#[trigger] pairs[j]).0 != pairs[i].0,
    ensures
        map_upto(pairs.update(i, (pairs[i].0, value)), k) == map_upto(pairs, k).insert(
            pairs[i].0,
            value,
        ),
    decreases k,
{
    let changed = pairs.update(i, (pairs[i].0, value));
    if k == i + 1 {
        lemma_same_prefix(pairs, changed, i);
        assert(map_upto(changed, k) =~= map_upto(pairs, k).insert(pairs[i].0, value));
    } else {
        lemma_replace_is_insert(pairs, i, value, k - 1);
        assert(pairs[k - 1].0 != pairs[i].0);
        assert(map_upto(changed, k) =~= map_upto(pairs, k).insert(pairs[i].0, value));
    }
}

/// Sequences that agree on their first `k` pairs make the same map of them.
proof fn lemma_same_prefix(
    a: Seq<(Seq<char>, Seq<char>)>,
    b: Seq<(Seq<char>, Seq<char>)>,
    k: int,
)
    requires
        0 <= k <= a.len(),
        k <= b.len(),
        forall|j: int| 0 <= j < k ==> a[j] == b[j],
    ensures
        map_upto(a, k) == map_upto(b, k),
    decreases k,
{
    if k > 0 {
        lemma_same_prefix(a, b, k - 1);
    }
}

/// Sets `key` to `value`: a parameter with this key gets the new value, and
/// where there is none the parameter is added at the end.
pub fn set_param(params: &mut Vec<Param>, key: String, value: String)
    requires
        distinct_keys(old(params)@),
    ensures
        distinct_keys(final(params)@),
        map_of(param_views(final(params)@)) == map_of(param_views(old(params)@)).insert(
            key@,
            value@,
        ),
{
    let ghost before = param_views(params@);
    let n = params.len();
    let mut i: usize = 0;
    while i < n
        invariant
            i <= n,
            n == params.len(),
            params@ == old(params)@,
            distinct_keys(params@),
            before == param_views(params@),
            forall|j: int| 0 <= j < i ==> (#[trigger] params@[j]).key@ != key@,
        decreases n - i,
    {
        if params[i].key == key {
            proof {
                assert forall|j: int| 0 <= j < before.len() && j != i implies (
                #[trigger] before[j]).0 != before[i as int].0 by {
                    assert(params@[j].key@ != params@[i as int].key@);
                }
                lemma_replace_is_insert(before, i as int, value@, n as int);
            }
            params.set(i, Param { key, value });
            assert(param_views(params@) =~= before.update(i as int, (before[i as int].0, value@)));
            return ;
        }
        i += 1;
    }
    params.push(Param { key, value });
    proof {
        let after = param_views(params@);
        assert(after =~= before.push((key@, value@)));
        lemma_same_prefix(before, after, n as int);
    }
}

/// Parses the search part of an address into its parameters.
///
/// Leading question marks are dropped. The rest is cut at every `&`; a piece
/// that holds a `=` gives the parameter whose key stands before the first `=`
/// and whose value stands behind it, both percent-decoded, a text that does
/// not decode counting as empty. Where a key comes twice, the later value
/// stays, and the key is listed once. In a search string without `%` there is
/// nothing to decode, and keys and values are the texts as they stand.
pub fn parse_search(search: &str) -> (params: Vec<Param>)
    ensures
        distinct_keys(params@),
        map_of(param_views(params@)) == search_params(search@),
        !search@.contains('%') ==> map_of(param_views(params@)) == plain_params(search@),
{
    let n = search.unicode_len();
    let mut start: usize = 0;
    while start < n && search.get_char(start) == '?'
        invariant
            start <= n,
            n == search@.len(),
            skip_all(search@, '?', 0) == skip_all(search@, '?', start as int),
        decreases n - start,
    {
        start += 1;
    }
    let mut params: Vec<Param> = Vec::new();
    let ghost all = params_from(search@, start as int, true);
    let ghost plain = !search@.contains('%');
    let ghost all_plain = params_from(search@, start as int, false);
    let ghost mut seen: Seq<(Seq<char>, Seq<char>)> = Seq::empty();
    let mut from: usize = start;
    let mut more: bool = true;
    while more
        invariant
            n == search@.len(),
            more ==> from <= n,
            more ==> all == seen + params_from(search@, from as int, true),
            !more ==> all == seen,
            plain == !search@.contains('%'),
            plain && more ==> all_plain == seen + params_from(search@, from as int, false),
            plain && !more ==> all_plain == seen,
            distinct_keys(params@),
            map_of(param_views(params@)) == map_of(seen),
        decreases
                if more {
                    n - from + 1
                } else {
                    0
                },
    {
        let end = find_char(search, '&', from, n);
        let eq = find_char(search, '=', from, end);
        let ghost head: Seq<(Seq<char>, Seq<char>)> = Seq::empty();
        if eq < end {
            let key = decode_or_empty(search.substring_char(from, eq));
            let value = decode_or_empty(search.substring_char(eq + 1, end));
            proof {
                let pair = (key@, value@);
                head = seq![pair];
                if plain {
                    lemma_part_is_plain(search@, from as int, eq as int);
                    lemma_part_is_plain(search@, eq + 1, end as int);
                }
                lemma_same_prefix(seen, seen.push(pair), seen.len() as int);
                assert(map_of(seen.push(pair)) == map_of(seen).insert(key@, value@));
            }
            set_param(&mut params, key, value);
        }
        proof {
            assert(seen + head =~= if eq < end {
                seen.push(head[0])
            } else {
                seen
            });
            if end < n {
                assert(seen + (head + params_from(search@, end + 1, true)) =~= (seen + head)
                    + params_from(search@, end + 1, true));
                assert(seen + (head + params_from(search@, end + 1, false)) =~= (seen + head)
                    + params_from(search@, end + 1, false));
            }
            seen = seen + head;
        }
        if end < n {
            from = end + 1;
        } else {
            more = false;
        }
    }
    params
}

/// A part of a text without `%` is without `%`.
proof fn lemma_part_is_plain(s: Seq<char>, from: int, end: int)
    requires
        0 <= from <= end <= s.len(),
        !s.contains('%'),
    ensures
        !s.subrange(from, end).contains('%'),
{
    let part = s.subrange(from, end);
    if part.contains('%') {
        let i = choose|i: int| 0 <= i < part.len() && part[i] == '%';
        assert(s[from + i] == '%');
    }
}

/// The value of the parameter `key`, if there is one.
pub fn get_param<'a>(params: &'a Vec<Param>, key: &str) -> (r: Option<&'a String>)
    ensures
        match r {
            Some(value) => map_of(param_views(params@)).contains_key(key@) && map_of(
                param_views(params@),
            )[key@] == value@,
            None => !map_of(param_views(params@)).contains_key(key@),
        },
{
    let wanted = key.to_owned();
    let ghost views = param_views(params@);
    let n = params.len();
    let mut i: usize = n;
    while i > 0
        invariant
            i <= n,
            n == params.len(),
            wanted@ == key@,
            views == param_views(params@),
            forall|j: int| i <= j < n ==> (#[trigger] views[j]).0 != key@,
        decreases i,
    {
        i -= 1;
        if params[i].key == wanted {
            proof {
                lemma_later_pairs_keep(views, i as int + 1, n as int, key@);
            }
            return Some(&params[i].value);
        }
    }
    proof {
        lemma_later_pairs_keep(views, 0, n as int, key@);
    }
    None
}

/// Whether the parameter `key` is there and says `true`. Any other value,
/// `false` or not, leaves the flag unset.
pub fn flag_is_set(params: &Vec<Param>, key: &str) -> (set: bool)
    ensures
        set == (map_of(param_views(params@)).contains_key(key@) && map_of(
            param_views(params@),
        )[key@] == "true"@),
{
    match get_param(params, key) {
        Some(value) => {
            let yes = "true".to_owned();
            *value == yes
        },
        None => false,
    }
}

/// Pairs with other keys leave the entry of `key` as it is.
proof fn lemma_later_pairs_keep(
    pairs: Seq<(Seq<char>, Seq<char>)>,
    from: int,
    upto: int,
    key: Seq<char>,
)
    requires
        0 <= from <= upto <= pairs.len(),
        forall|j: int| from <= j < upto ==> (#[trigger] pairs[j]).0 != key,
    ensures
        map_upto(pairs, upto).contains_key(key) == map_upto(pairs, from).contains_key(key),
        map_upto(pairs, upto).contains_key(key) ==> map_upto(pairs, upto)[key] == map_upto(
            pairs,
            from,
        )[key],
    decreases upto - from,
{
    if from < upto {
        lemma_later_pairs_keep(pairs, from, upto - 1, key);
    }
}

} // verus!
