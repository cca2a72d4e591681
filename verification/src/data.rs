//! List loading: identifier slugs, display names, and the checks applied to
//! freshly fetched item lists.
use vstd::prelude::*;

use vstd::arithmetic::div_mod::lemma_fundamental_div_mod;
use vstd::string::StrSliceExecFns;

verus! {

/// Character-by-character string equality.
pub fn str_eq(a: &str, b: &str) -> (r: bool)
    ensures
        r == (a@ == b@),
{
    let alen = a.unicode_len();
    let blen = b.unicode_len();
    if alen != blen {
        proof {
            assert(a@ != b@);
        }
        return false;
    }
    for i in 0..alen
        invariant
            alen == a@.len() == b@.len(),
            forall|k: int| 0 <= k < i ==> a@[k] == b@[k],
    {
        if a.get_char(i) != b.get_char(i) {
            return false;
        }
    }
    proof {
        assert(a@ =~= b@);
    }
    true
}

/// Unicode's White_Space property: the code points the standard lists as
/// whitespace.
pub open spec fn is_unicode_whitespace(c: char) -> bool {
    let u = c as u32;
    ||| (9 <= u <= 13)
    ||| u == 32
    ||| u == 0x85
    ||| u == 0xA0
    ||| u == 0x1680
    ||| (0x2000 <= u <= 0x200A)
    ||| u == 0x2028
    ||| u == 0x2029
    ||| u == 0x202F
    ||| u == 0x205F
    ||| u == 0x3000
}

/// Whether the character is whitespace, by the White_Space table.
fn char_is_whitespace(c: char) -> (r: bool)
    ensures
        r == is_unicode_whitespace(c),
{
    let u = c as u32;
    (9 <= u && u <= 13) || u == 32 || u == 0x85 || u == 0xA0 || u == 0x1680 || (0x2000 <= u
        && u <= 0x200A) || u == 0x2028 || u == 0x2029 || u == 0x202F || u == 0x205F || u
        == 0x3000
}

/// Relies on `String`'s `FromIterator`: collecting characters in order.
#[verifier::external_body]
fn string_from_chars(chars: &Vec<char>) -> (r: String)
    ensures
        r@ == chars@,
{
    chars.iter().collect()
}

/// Append every character of `src` to `out`.
fn push_all(out: &mut Vec<char>, src: &Vec<char>)
    ensures
        final(out)@ == old(out)@ + src@,
{
    let ghost orig = out@;
    let n = src.len();
    for i in 0..n
        invariant
            n == src@.len(),
            out@ == orig + src@.take(i as int),
    {
        out.push(src[i]);
        proof {
            assert(orig + src@.take(i + 1) =~= (orig + src@.take(i as int)).push(
                src@[i as int],
            ));
        }
    }
    proof {
        assert(src@.take(n as int) =~= src@);
    }
}

/// An ASCII letter or digit.
pub open spec fn spec_is_ascii_alnum(c: char) -> bool {
    (48 <= c as u32 <= 57) || (65 <= c as u32 <= 90) || (97 <= c as u32 <= 122)
}

fn is_ascii_alnum(c: char) -> (r: bool)
    ensures
        r == spec_is_ascii_alnum(c),
{
    let u = c as u32;
    (48 <= u && u <= 57) || (65 <= u && u <= 90) || (97 <= u && u <= 122)
}

/// ASCII lowercasing: upper-case letters shift down, all else unchanged.
pub open spec fn spec_ascii_lower(c: char) -> char {
    if 65 <= c as u32 <= 90 {
        ((c as u32 + 32) as u8) as char
    } else {
        c
    }
}

fn ascii_lower(c: char) -> (r: char)
    ensures
        r == spec_ascii_lower(c),
{
    let u = c as u32;
    if 65 <= u && u <= 90 {
        ((u + 32) as u8) as char
    } else {
        c
    }
}

/// One step of slug building: letters and digits append lowercased, dash,
/// underscore and whitespace append a dash unless one just went in,
/// everything else is dropped.
pub open spec fn spec_slug_step(acc: Seq<char>, c: char) -> Seq<char> {
    if spec_is_ascii_alnum(c) {
        acc.push(spec_ascii_lower(c))
    } else if is_unicode_whitespace(c) || c == '-' || c == '_' {
        if acc.len() > 0 && acc.last() == '-' {
            acc
        } else {
            acc.push('-')
        }
    } else {
        acc
    }
}

/// Slug building folded over the input, before trimming.
pub open spec fn spec_slug_raw(s: Seq<char>, acc: Seq<char>) -> Seq<char>
    decreases s.len(),
{
    if s.len() == 0 {
        acc
    } else {
        spec_slug_raw(s.drop_first(), spec_slug_step(acc, s[0]))
    }
}

/// Dashes stripped from both ends.
pub open spec fn spec_trim_dashes(s: Seq<char>) -> Seq<char>
    decreases s.len(),
{
    if s.len() == 0 {
        s
    } else if s[0] == '-' {
        spec_trim_dashes(s.drop_first())
    } else if s.last() == '-' {
        spec_trim_dashes(s.drop_last())
    } else {
        s
    }
}

/// What `slugify` returns: the folded slug with the dashes trimmed.
pub open spec fn spec_slugify(s: Seq<char>) -> Seq<char> {
    spec_trim_dashes(spec_slug_raw(s, Seq::empty()))
}

/// Turn a label into an identifier slug: ASCII letters and digits
/// lowercased, separator runs collapsed to single dashes, everything else
/// dropped, and dashes trimmed from the ends.
pub fn slugify(input: &str) -> (r: String)
    ensures
        r@ == spec_slugify(input@),
{
    let n = input.unicode_len();
    let mut buf: Vec<char> = Vec::new();
    proof {
        assert(input@.skip(0) =~= input@);
    }
    for i in 0..n
        invariant
            n == input@.len(),
            spec_slug_raw(input@, Seq::empty()) == spec_slug_raw(input@.skip(i as int), buf@),
    {
        let c = input.get_char(i);
        proof {
            assert(input@.skip(i as int)[0] == c);
            assert(input@.skip(i as int).drop_first() =~= input@.skip(i + 1));
        }
        if is_ascii_alnum(c) {
            buf.push(ascii_lower(c));
        } else if char_is_whitespace(c) || c == '-' || c == '_' {
            let dup = buf.len() > 0 && buf[buf.len() - 1] == '-';
            if !dup {
                buf.push('-');
            }
        }
    }
    proof {
        assert(input@.skip(n as int) =~= Seq::<char>::empty());
    }
    let ghost target = spec_trim_dashes(buf@);
    loop
        invariant
            spec_trim_dashes(buf@) == target,
        ensures
            buf@ == target,
        decreases buf@.len(),
    {
        let ghost pre = buf@;
        let len = buf.len();
        if len > 0 && buf[0] == '-' {
            buf.remove(0);
            proof {
                assert(buf@ =~= pre.drop_first());
            }
        } else if len > 0 && buf[len - 1] == '-' {
            buf.pop();
            proof {
                assert(buf@ =~= pre.drop_last());
            }
        } else {
            break;
        }
    }
    string_from_chars(&buf)
}

/// The full Unicode uppercase mapping of a character.
pub uninterp spec fn upper_of(c: char) -> Seq<char>;

/// The Unicode lowercase mapping of a character sequence.
pub uninterp spec fn lower_of(s: Seq<char>) -> Seq<char>;

/// Relies on `char::to_uppercase`: the uppercase mapping, a function of
/// the character alone.
#[verifier::external_body]
fn char_upper(c: char) -> (r: Vec<char>)
    ensures
        r@ == upper_of(c),
{
    c.to_uppercase().collect()
}

/// Relies on `str::to_lowercase`: the lowercase mapping, a function of the
/// characters alone.
#[verifier::external_body]
fn chars_lower(s: &Vec<char>) -> (r: Vec<char>)
    ensures
        r@ == lower_of(s@),
{
    let text: String = s.iter().collect();
    text.to_lowercase().chars().collect()
}

/// A word separator in a raw list id: underscore, dash or space.
pub open spec fn spec_is_name_sep(c: char) -> bool {
    c == '_' || c == '-' || c == ' '
}

fn is_name_sep(c: char) -> (r: bool)
    ensures
        r == spec_is_name_sep(c),
{
    c == '_' || c == '-' || c == ' '
}

/// Length of the leading run of non-separator characters.
pub open spec fn run_len(s: Seq<char>) -> nat
    decreases s.len(),
{
    if s.len() == 0 || spec_is_name_sep(s[0]) {
        0
    } else {
        1 + run_len(s.drop_first())
    }
}

proof fn lemma_run_len(s: Seq<char>)
    ensures
        run_len(s) <= s.len(),
        forall|j: int| 0 <= j < run_len(s) ==> !spec_is_name_sep(s[j]),
        run_len(s) < s.len() ==> spec_is_name_sep(s[run_len(s) as int]),
    decreases s.len(),
{
    if s.len() > 0 && !spec_is_name_sep(s[0]) {
        lemma_run_len(s.drop_first());
        assert forall|j: int| 0 <= j < run_len(s) implies !spec_is_name_sep(s[j]) by {
            if j > 0 {
                assert(!spec_is_name_sep(s.drop_first()[j - 1]));
            }
        }
    }
}

/// The run of a sequence whose first `m` characters are not separators and
/// whose character `m` (if any) is one has length exactly `m`.
proof fn lemma_run_len_eq(s: Seq<char>, m: int)
    requires
        0 <= m <= s.len(),
        forall|j: int| 0 <= j < m ==> !spec_is_name_sep(s[j]),
        m < s.len() ==> spec_is_name_sep(s[m]),
    ensures
        run_len(s) == m,
    decreases m,
{
    if m == 0 {
    } else {
        assert forall|j: int| 0 <= j < m - 1 implies !spec_is_name_sep(
            s.drop_first()[j],
        ) by {
            assert(!spec_is_name_sep(s[j + 1]));
        }
        if m - 1 < s.drop_first().len() {
            assert(spec_is_name_sep(s.drop_first()[m - 1]));
        }
        lemma_run_len_eq(s.drop_first(), m - 1);
    }
}

/// A capitalized segment: the uppercase mapping of its first character
/// followed by the lowercase mapping of the rest.
pub open spec fn spec_cap_segment(seg: Seq<char>) -> Seq<char> {
    upper_of(seg[0]) + lower_of(seg.drop_first())
}

/// The display form of what remains of an id: separators are skipped, each
/// word is capitalized, and words after the first get a leading space.
pub open spec fn spec_display_parts(s: Seq<char>, first: bool) -> Seq<char>
    decreases s.len(),
    via spec_display_parts_decreases
{
    if s.len() == 0 {
        Seq::empty()
    } else if spec_is_name_sep(s[0]) {
        spec_display_parts(s.drop_first(), first)
    } else {
        let k = run_len(s) as int;
        (if first {
            Seq::<char>::empty()
        } else {
            seq![' ']
        }) + spec_cap_segment(s.take(k)) + spec_display_parts(s.skip(k), false)
    }
}

#[via_fn]
proof fn spec_display_parts_decreases(s: Seq<char>, first: bool) {
    if s.len() > 0 && !spec_is_name_sep(s[0]) {
        lemma_run_len(s);
        assert(run_len(s) >= 1);
    }
}

/// What `display_name` returns for an id.
pub open spec fn spec_display_name(s: Seq<char>) -> Seq<char> {
    spec_display_parts(s, true)
}

/// Turn a list id into a display label: split on underscores, dashes and
/// spaces, capitalize each word, and join the words with single spaces.
pub fn display_name(id: &str) -> (r: String)
    ensures
        r@ == spec_display_name(id@),
{
    let n = id.unicode_len();
    let mut out: Vec<char> = Vec::new();
    let mut first = true;
    let mut i = 0usize;
    proof {
        assert(id@.skip(0) =~= id@);
    }
    while i < n
        invariant
            n == id@.len(),
            i <= n,
            spec_display_name(id@) == out@ + spec_display_parts(id@.skip(i as int), first),
        decreases n - i,
    {
        let c = id.get_char(i);
        if is_name_sep(c) {
            proof {
                assert(id@.skip(i as int)[0] == c);
                assert(id@.skip(i as int).drop_first() =~= id@.skip(i + 1));
            }
            i = i + 1;
        } else {
            let ghost start = i as int;
            let head = c;
            i = i + 1;
            let mut rest: Vec<char> = Vec::new();
            proof {
                assert(rest@ =~= id@.subrange(start + 1, i as int));
            }
            while i < n && !is_name_sep(id.get_char(i))
                invariant
                    n == id@.len(),
                    0 <= start < i <= n,
                    head == id@[start],
                    rest@ == id@.subrange(start + 1, i as int),
                    forall|j: int| start <= j < i ==> !spec_is_name_sep(id@[j]),
                decreases n - i,
            {
                rest.push(id.get_char(i));
                proof {
                    assert(rest@ =~= id@.subrange(start + 1, i + 1));
                }
                i = i + 1;
            }
            proof {
                let tail = id@.skip(start);
                assert forall|j: int| 0 <= j < i - start implies !spec_is_name_sep(
                    tail[j],
                ) by {
                    assert(!spec_is_name_sep(id@[start + j]));
                }
                if i < n {
                    assert(spec_is_name_sep(tail[i - start]));
                }
                lemma_run_len_eq(tail, i - start);
                assert(tail.take(i - start)[0] == head);
                assert(tail.take(i - start).drop_first() =~= id@.subrange(start + 1, i as int));
                assert(tail.skip(i - start) =~= id@.skip(i as int));
            }
            if !first {
                out.push(' ');
            }
            let up = char_upper(head);
            let low = chars_lower(&rest);
            push_all(&mut out, &up);
            push_all(&mut out, &low);
            first = false;
        }
    }
    proof {
        assert(id@.skip(n as int) =~= Seq::<char>::empty());
    }
    string_from_chars(&out)
}

/// The decimal digit character for `d` (zero through nine).
pub open spec fn spec_digit(d: int) -> char {
    if d == 0 {
        '0'
    } else if d == 1 {
        '1'
    } else if d == 2 {
        '2'
    } else if d == 3 {
        '3'
    } else if d == 4 {
        '4'
    } else if d == 5 {
        '5'
    } else if d == 6 {
        '6'
    } else if d == 7 {
        '7'
    } else if d == 8 {
        '8'
    } else {
        '9'
    }
}

/// The decimal rendering of a non-negative number.
pub open spec fn spec_decimal(n: int) -> Seq<char>
    decreases n,
{
    if n < 10 {
        seq![spec_digit(n)]
    } else {
        spec_decimal(n / 10).push(spec_digit(n % 10))
    }
}

proof fn lemma_decimal_len(n: int)
    ensures
        spec_decimal(n).len() >= 1,
    decreases n,
{
    if n >= 10 {
        lemma_decimal_len(n / 10);
    }
}

proof fn lemma_decimal_injective(a: int, b: int)
    requires
        0 <= a,
        0 <= b,
        spec_decimal(a) == spec_decimal(b),
    ensures
        a == b,
    decreases a,
{
    if a < 10 && b < 10 {
        assert(spec_decimal(a)[0] == spec_digit(a));
        assert(spec_decimal(b)[0] == spec_digit(b));
    } else if a >= 10 && b >= 10 {
        assert(spec_decimal(a).last() == spec_digit(a % 10));
        assert(spec_decimal(b).last() == spec_digit(b % 10));
        assert(spec_decimal(a).drop_last() =~= spec_decimal(a / 10));
        assert(spec_decimal(b).drop_last() =~= spec_decimal(b / 10));
        lemma_decimal_injective(a / 10, b / 10);
        lemma_fundamental_div_mod(a, 10);
        lemma_fundamental_div_mod(b, 10);
    } else {
        if a >= 10 {
            lemma_decimal_len(a / 10);
            assert(spec_decimal(a).len() >= 2);
        }
        if b >= 10 {
            lemma_decimal_len(b / 10);
            assert(spec_decimal(b).len() >= 2);
        }
        assert(false);
    }
}

/// The fallback id formed from a base and a numeric suffix.
pub open spec fn candidate_of(base: Seq<char>, k: int) -> Seq<char> {
    base + seq!['-'] + spec_decimal(k)
}

proof fn lemma_candidate_injective(base: Seq<char>, k1: int, k2: int)
    requires
        0 <= k1,
        0 <= k2,
        candidate_of(base, k1) == candidate_of(base, k2),
    ensures
        k1 == k2,
{
    let c1 = candidate_of(base, k1);
    let c2 = candidate_of(base, k2);
    lemma_decimal_len(k1);
    lemma_decimal_len(k2);
    assert(c1.len() == base.len() + 1 + spec_decimal(k1).len());
    assert(c2.len() == base.len() + 1 + spec_decimal(k2).len());
    assert(spec_decimal(k1).len() == spec_decimal(k2).len());
    assert forall|j: int| 0 <= j < spec_decimal(k1).len() implies spec_decimal(k1)[j]
        == spec_decimal(k2)[j] by {
        assert(c1[base.len() + 1 + j] == spec_decimal(k1)[j]);
        assert(c2[base.len() + 1 + j] == spec_decimal(k2)[j]);
    }
    assert(spec_decimal(k1) =~= spec_decimal(k2));
    lemma_decimal_injective(k1, k2);
}

/// Whether `id` occurs in a sequence of ids.
pub open spec fn has_id(ids: Seq<Seq<char>>, id: Seq<char>) -> bool {
    exists|k: int| 0 <= k < ids.len() && ids[k] == id
}

/// If every numbered candidate below `m` already occurs among the ids, the
/// id list must hold at least that many entries: the candidates are
/// pairwise distinct.
proof fn lemma_collision_bound(sdv: Seq<Seq<char>>, base: Seq<char>, m: int)
    requires
        2 <= m,
        forall|c: int| 2 <= c < m ==> has_id(sdv, candidate_of(base, c)),
    ensures
        m - 2 <= sdv.len(),
    decreases m,
{
    if m > 2 {
        let cand = candidate_of(base, m - 1);
        assert(has_id(sdv, cand));
        let idx = choose|k: int| 0 <= k < sdv.len() && sdv[k] == cand;
        let sdv2 = sdv.subrange(0, idx) + sdv.subrange(idx + 1, sdv.len() as int);
        assert(sdv2.len() == sdv.len() - 1);
        assert forall|c: int| 2 <= c < m - 1 implies has_id(sdv2, candidate_of(base, c)) by {
            assert(has_id(sdv, candidate_of(base, c)));
            let wi = choose|k: int|
                0 <= k < sdv.len() && sdv[k] == candidate_of(base, c);
            if wi == idx {
                lemma_candidate_injective(base, c, m - 1);
                assert(false);
            } else if wi < idx {
                assert(sdv2[wi] == sdv[wi]);
            } else {
                assert(sdv2[wi - 1] == sdv[wi]);
            }
        }
        lemma_collision_bound(sdv2, base, m - 1);
    }
}

/// The deep view of a string vector indexes to the views of its strings.
pub proof fn lemma_ids_deep_view(v: Vec<String>)
    ensures
        v.deep_view().len() == v@.len(),
        forall|i: int| 0 <= i < v@.len() ==> #[trigger] v.deep_view()[i] == v@[i]@,
{
}

/// Whether `id` is already among the seen ids.
fn contains_id(seen: &Vec<String>, id: &String) -> (r: bool)
    ensures
        r == has_id(seen.deep_view(), id@),
{
    let n = seen.len();
    for i in 0..n
        invariant
            n == seen@.len(),
            forall|k: int| 0 <= k < i ==> #[trigger] seen.deep_view()[k] != id@,
    {
        proof {
            assert(seen.deep_view()[i as int] == seen@[i as int]@);
        }
        if str_eq(seen[i].as_str(), id.as_str()) {
            return true;
        }
    }
    proof {
        if has_id(seen.deep_view(), id@) {
            let wi = choose|k: int|
                0 <= k < seen.deep_view().len() && seen.deep_view()[k] == id@;
            assert(seen.deep_view()[wi] != id@);
        }
    }
    false
}

/// The characters of a string slice.
fn str_chars(s: &str) -> (r: Vec<char>)
    ensures
        r@ == s@,
{
    let n = s.unicode_len();
    let mut out: Vec<char> = Vec::new();
    for i in 0..n
        invariant
            n == s@.len(),
            out@ == s@.take(i as int),
    {
        out.push(s.get_char(i));
        proof {
            assert(out@ =~= s@.take(i + 1));
        }
    }
    proof {
        assert(s@.take(n as int) =~= s@);
    }
    out
}

/// The decimal rendering of a number.
fn u64_to_chars(x: u64) -> (r: Vec<char>)
    ensures
        r@ == spec_decimal(x as int),
    decreases x,
{
    let dc = match x % 10 {
        0 => '0',
        1 => '1',
        2 => '2',
        3 => '3',
        4 => '4',
        5 => '5',
        6 => '6',
        7 => '7',
        8 => '8',
        _ => '9',
    };
    if x < 10 {
        let mut v: Vec<char> = Vec::new();
        v.push(dc);
        proof {
            assert(v@ =~= seq![spec_digit(x as int)]);
        }
        v
    } else {
        let mut v = u64_to_chars(x / 10);
        v.push(dc);
        v
    }
}

/// Record `base` among the seen ids and return it, unless it is already
/// there: then the first free numbered variant `base-2`, `base-3`, ... is
/// recorded and returned instead.
pub fn ensure_unique_id(seen: &mut Vec<String>, base: String) -> (r: String)
    requires
        old(seen)@.len() + 2 <= u64::MAX,
    ensures
        !has_id(old(seen).deep_view(), r@),
        final(seen).deep_view() == old(seen).deep_view().push(r@),
        !has_id(old(seen).deep_view(), base@) ==> r@ == base@,
        has_id(old(seen).deep_view(), base@) ==> exists|k: int|
            {
                &&& 2 <= k
                &&& r@ == candidate_of(base@, k)
                &&& forall|c: int|
                    2 <= c < k ==> has_id(old(seen).deep_view(), candidate_of(base@, c))
            },
{
    let ghost sdv = old(seen).deep_view();
    if !contains_id(seen, &base) {
        let r = base.clone();
        seen.push(base);
        proof {
            assert(seen.deep_view() =~= sdv.push(r@));
        }
        return r;
    }
    let base_chars = str_chars(base.as_str());
    let bound = seen.len() as u64 + 2;
    let mut counter: u64 = 2;
    while counter <= bound
        invariant
            seen@ == old(seen)@,
            sdv == seen.deep_view(),
            has_id(sdv, base@),
            sdv.len() + 2 <= u64::MAX,
            bound == sdv.len() + 2,
            2 <= counter <= bound,
            forall|c: int| 2 <= c < counter ==> has_id(sdv, candidate_of(base@, c)),
            base_chars@ == base@,
        decreases bound - counter,
    {
        let mut cc: Vec<char> = Vec::new();
        push_all(&mut cc, &base_chars);
        cc.push('-');
        let digits = u64_to_chars(counter);
        push_all(&mut cc, &digits);
        let cand = string_from_chars(&cc);
        proof {
            assert(cand@ =~= candidate_of(base@, counter as int));
        }
        if !contains_id(seen, &cand) {
            let r = cand.clone();
            seen.push(cand);
            proof {
                assert(seen.deep_view() =~= sdv.push(r@));
            }
            return r;
        }
        proof {
            lemma_collision_bound(sdv, base@, counter as int + 1);
        }
        counter = counter + 1;
    }
    proof {
        lemma_collision_bound(sdv, base@, counter as int);
        assert(false);
    }
    base
}

/// A selectable list, as presented in the menu.
#[derive(Debug, Clone, PartialEq, Eq)]
pub struct ListInfo {
    pub id: String,
    pub label: String,
}

/// One item of a loaded list.
#[derive(Debug, Clone, PartialEq, Eq)]
pub struct ListItem {
    pub id: String,
    pub label: String,
}

/// A fully loaded list: its descriptor and its items.
#[derive(Debug, Clone, PartialEq, Eq)]
pub struct LoadedList {
    pub info: ListInfo,
    pub items: Vec<ListItem>,
}

/// Failures while fetching or decoding list data.
#[derive(Debug)]
pub enum DataError {
    NotFound(String),
    Network(String),
    Parse(String),
}

impl DataError {
    /// Wrap a network-layer failure message.
    pub fn network(err: String) -> (r: Self)
        ensures
            r == DataError::Network(err),
    {
        DataError::Network(err)
    }

    /// Wrap a decode failure message.
    pub fn parse(err: String) -> (r: Self)
        ensures
            r == DataError::Parse(err),
    {
        DataError::Parse(err)
    }
}

/// Whitespace stripped from both ends.
pub open spec fn spec_trim_ws(s: Seq<char>) -> Seq<char>
    decreases s.len(),
{
    if s.len() == 0 {
        s
    } else if is_unicode_whitespace(s[0]) {
        spec_trim_ws(s.drop_first())
    } else if is_unicode_whitespace(s.last()) {
        spec_trim_ws(s.drop_last())
    } else {
        s
    }
}

/// Strip whitespace from both ends of a character buffer.
fn trim_ws_chars(chars: Vec<char>) -> (r: Vec<char>)
    ensures
        r@ == spec_trim_ws(chars@),
{
    let mut buf = chars;
    let ghost target = spec_trim_ws(buf@);
    loop
        invariant
            spec_trim_ws(buf@) == target,
        ensures
            buf@ == target,
        decreases buf@.len(),
    {
        let ghost pre = buf@;
        let len = buf.len();
        if len > 0 && char_is_whitespace(buf[0]) {
            buf.remove(0);
            proof {
                assert(buf@ =~= pre.drop_first());
            }
        } else if len > 0 && char_is_whitespace(buf[len - 1]) {
            buf.pop();
            proof {
                assert(buf@ =~= pre.drop_last());
            }
        } else {
            break;
        }
    }
    buf
}

/// The id an item starts from: the slug of its trimmed label, or a
/// position-based fallback when nothing survives slugification.
pub open spec fn spec_item_base(raw_label: Seq<char>, index: int) -> Seq<char> {
    let slug = spec_slugify(spec_trim_ws(raw_label));
    if slug.len() == 0 {
        seq!['i', 't', 'e', 'm', '-'] + spec_decimal(index)
    } else {
        slug
    }
}

/// Whether a raw item list is rejected: it is empty, or some label trims
/// to nothing.
pub open spec fn spec_items_rejected(raw: Seq<Seq<char>>) -> bool {
    raw.len() == 0 || exists|i: int| 0 <= i < raw.len() && spec_trim_ws(raw[i]).len() == 0
}

/// Build the items of a list from its raw labels: each label is trimmed,
/// slugified into an id (with a position fallback for empty slugs), and
/// the id is made unique against the ids built before it. An empty list,
/// or any label that trims to nothing, is rejected.
pub fn build_items(list_id: &str, raw_items: Vec<String>) -> (r: Result<
    Vec<ListItem>,
    DataError,
>)
    requires
        raw_items@.len() + 2 <= u64::MAX,
    ensures
        r is Err <==> spec_items_rejected(raw_items.deep_view()),
        r matches Err(e) ==> e is Parse,
        r matches Ok(items) ==> {
            &&& items@.len() == raw_items@.len()
            &&& forall|i: int|
                0 <= i < items@.len() ==> #[trigger] items@[i].label@ == spec_trim_ws(
                    raw_items@[i]@,
                )
            &&& forall|i: int|
                0 <= i < items@.len() ==> #[trigger] items@[i].id@ == spec_item_base(
                    raw_items@[i]@,
                    i,
                ) || exists|k: int|
                    2 <= k && items@[i].id@ == candidate_of(
                        spec_item_base(raw_items@[i]@, i),
                        k,
                    )
            &&& forall|i: int, j: int|
                0 <= i < j < items@.len() ==> #[trigger] items@[i].id@
                    != #[trigger] items@[j].id@
        },
{
    let ghost rdv = raw_items.deep_view();
    proof {
        lemma_ids_deep_view(raw_items);
    }
    let n = raw_items.len();
    if n == 0 {
        let mut mc = str_chars("List '");
        push_all(&mut mc, &str_chars(list_id));
        push_all(&mut mc, &str_chars("' does not contain any items"));
        return Err(DataError::Parse(string_from_chars(&mc)));
    }
    let mut seen: Vec<String> = Vec::new();
    let mut items: Vec<ListItem> = Vec::new();
    for index in 0..n
        invariant
            n == raw_items@.len(),
            rdv == raw_items.deep_view(),
            rdv.len() == n,
            forall|i: int| 0 <= i < n ==> #[trigger] rdv[i] == raw_items@[i]@,
            n + 2 <= u64::MAX,
            seen@.len() == index,
            items@.len() == index,
            forall|i: int|
                0 <= i < index ==> #[trigger] seen.deep_view()[i] == items@[i].id@,
            forall|i: int|
                0 <= i < index ==> spec_trim_ws(#[trigger] raw_items@[i]@).len() > 0,
            forall|i: int|
                0 <= i < index ==> #[trigger] items@[i].label@ == spec_trim_ws(
                    raw_items@[i]@,
                ),
            forall|i: int|
                0 <= i < index ==> #[trigger] items@[i].id@ == spec_item_base(
                    raw_items@[i]@,
                    i,
                ) || exists|k: int|
                    2 <= k && items@[i].id@ == candidate_of(
                        spec_item_base(raw_items@[i]@, i),
                        k,
                    ),
            forall|i: int, j: int|
                0 <= i < j < index ==> #[trigger] items@[i].id@ != #[trigger] items@[j].id@,
    {
        let label_chars = str_chars(raw_items[index].as_str());
        let trimmed_chars = trim_ws_chars(label_chars);
        if trimmed_chars.len() == 0 {
            proof {
                assert(spec_trim_ws(rdv[index as int]).len() == 0);
                assert(spec_items_rejected(rdv));
            }
            let mut mc = str_chars("Item ");
            push_all(&mut mc, &u64_to_chars(index as u64));
            push_all(&mut mc, &str_chars(" in list '"));
            push_all(&mut mc, &str_chars(list_id));
            push_all(&mut mc, &str_chars("' is empty"));
            return Err(DataError::Parse(string_from_chars(&mc)));
        }
        let trimmed = string_from_chars(&trimmed_chars);
        let slug = slugify(trimmed.as_str());
        let base = if slug.as_str().unicode_len() == 0 {
            let mut bc = str_chars("item-");
            push_all(&mut bc, &u64_to_chars(index as u64));
            proof {
                reveal_strlit("item-");
                assert("item-"@ =~= seq!['i', 't', 'e', 'm', '-']);
            }
            string_from_chars(&bc)
        } else {
            slug
        };
        let ghost sdv_before = seen.deep_view();
        let id = ensure_unique_id(&mut seen, base);
        proof {
            assert(seen.deep_view() == sdv_before.push(id@));
            assert forall|i: int| 0 <= i < index implies #[trigger] items@[i].id@
                != id@ by {
                assert(sdv_before[i] == items@[i].id@);
            }
        }
        items.push(ListItem { id, label: trimmed });
    }
    proof {
        assert(!spec_items_rejected(rdv)) by {
            if exists|i: int| 0 <= i < rdv.len() && spec_trim_ws(rdv[i]).len() == 0 {
                let wi = choose|i: int|
                    0 <= i < rdv.len() && spec_trim_ws(rdv[i]).len() == 0;
                assert(spec_trim_ws(raw_items@[wi]@).len() > 0);
            }
        }
    }
    Ok(items)
}

/// Build the menu descriptors for a fetched id list: each id keeps its
/// place and gains its display label.
pub fn build_list_infos(ids: Vec<String>) -> (r: Vec<ListInfo>)
    ensures
        r@.len() == ids@.len(),
        forall|i: int| 0 <= i < r@.len() ==> #[trigger] r@[i].id@ == ids@[i]@,
        forall|i: int|
            0 <= i < r@.len() ==> #[trigger] r@[i].label@ == spec_display_name(ids@[i]@),
{
    let n = ids.len();
    let mut out: Vec<ListInfo> = Vec::new();
    for i in 0..n
        invariant
            n == ids@.len(),
            out@.len() == i,
            forall|k: int| 0 <= k < i ==> #[trigger] out@[k].id@ == ids@[k]@,
            forall|k: int|
                0 <= k < i ==> #[trigger] out@[k].label@ == spec_display_name(ids@[k]@),
    {
        let label = display_name(ids[i].as_str());
        let id = ids[i].clone();
        proof {
            assert(id@ == ids@[i as int]@);
        }
        out.push(ListInfo { id, label });
        proof {
            assert(out@[i as int].id@ == ids@[i as int]@);
            assert(out@[i as int].label@ == spec_display_name(ids@[i as int]@));
        }
    }
    out
}

/// What serde_json makes of a text expected to hold a JSON array of
/// strings: the parsed strings, or nothing when the text is rejected.
pub uninterp spec fn parsed_string_list(s: Seq<char>) -> Option<Seq<Seq<char>>>;

/// Relies on `serde_json::from_str` for `Vec<String>`: whether the text
/// parses as a JSON array of strings, and as what, depends on the text
/// alone; a rejection is rendered as its display text.
#[verifier::external_body]
fn parse_string_list(text: &str) -> (r: Result<Vec<String>, String>)
    ensures
        match r {
            Result::Ok(v) => parsed_string_list(text@) == Option::Some(v.deep_view()),
            Result::Err(_) => parsed_string_list(text@) is None,
        },
{
    serde_json::from_str::<Vec<String>>(text).map_err(|e| e.to_string())
}

/// Decode a fetched JSON document into the list of strings it holds.
pub fn parse_id_list(text: &str) -> (r: Result<Vec<String>, DataError>)
    ensures
        match r {
            Result::Ok(v) => parsed_string_list(text@) == Option::Some(v.deep_view()),
            Result::Err(e) => parsed_string_list(text@) is None && e is Parse,
        },
{
    match parse_string_list(text) {
        Ok(v) => Ok(v),
        Err(msg) => Err(DataError::Parse(msg)),
    }
}

} // verus!
