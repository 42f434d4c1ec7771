//! Text helpers shared by the listing and browsing logic: name order,
//! character access, and substring tests.

use vstd::prelude::*;

verus! {

/// The order in which names are listed: lexicographic by code point, a
/// proper prefix before any longer name.
pub open spec fn name_le(a: Seq<char>, b: Seq<char>) -> bool
    decreases a.len(),
{
    if a.len() == 0 {
        true
    } else if b.len() == 0 {
        false
    } else if (a[0] as int) < (b[0] as int) {
        true
    } else if a[0] == b[0] {
        name_le(a.drop_first(), b.drop_first())
    } else {
        false
    }
}

/// The characters of `s`, in order.
pub fn chars_of(s: &str) -> (v: Vec<char>)
    ensures
        v@ == s@,
{
    let mut v: Vec<char> = Vec::new();
    for c in it: s.chars()
        invariant
            v@ == it.seq().take(it.index() as int),
            it.seq() == s@,
    {
        v.push(c);
    }
    v
}

/// `name_le` as a relation value, for the sorting lemmas of vstd.
pub open spec fn name_order() -> spec_fn(Seq<char>, Seq<char>) -> bool {
    |a: Seq<char>, b: Seq<char>| name_le(a, b)
}

proof fn lemma_name_le_reflexive(a: Seq<char>)
    ensures
        name_le(a, a),
    decreases a.len(),
{
    if a.len() > 0 {
        lemma_name_le_reflexive(a.drop_first());
    }
}

proof fn lemma_name_le_antisymmetric(a: Seq<char>, b: Seq<char>)
    requires
        name_le(a, b),
        name_le(b, a),
    ensures
        a == b,
    decreases a.len(),
{
    if a.len() > 0 && b.len() > 0 {
        lemma_name_le_antisymmetric(a.drop_first(), b.drop_first());
        assert(a =~= seq![a[0]] + a.drop_first());
        assert(b =~= seq![b[0]] + b.drop_first());
    }
}

proof fn lemma_name_le_transitive(a: Seq<char>, b: Seq<char>, c: Seq<char>)
    requires
        name_le(a, b),
        name_le(b, c),
    ensures
        name_le(a, c),
    decreases a.len(),
{
    if a.len() > 0 && b.len() > 0 && c.len() > 0 {
        if a[0] == b[0] && b[0] == c[0] {
            lemma_name_le_transitive(a.drop_first(), b.drop_first(), c.drop_first());
        }
    }
}

proof fn lemma_name_le_total(a: Seq<char>, b: Seq<char>)
    ensures
        name_le(a, b) || name_le(b, a),
    decreases a.len(),
{
    if a.len() > 0 && b.len() > 0 && a[0] == b[0] {
        lemma_name_le_total(a.drop_first(), b.drop_first());
    }
}

/// `a` comes no later than `b` exactly when `a` is a prefix of `b`, or at
/// the first position where they differ `a` has the smaller code point.
pub proof fn lemma_name_le_meaning(a: Seq<char>, b: Seq<char>)
    ensures
        name_le(a, b) <==> (a.len() <= b.len() && b.take(a.len() as int) == a) || exists|k: int|
            0 <= k < a.len() && k < b.len() && a.take(k) == b.take(k) && (#[trigger] a[k] as int)
                < (b[k] as int),
    decreases a.len(),
{
    if a.len() == 0 {
        assert(b.take(0) =~= a);
    } else if b.len() == 0 {
        assert(!(exists|k: int|
            0 <= k < a.len() && k < b.len() && a.take(k) == b.take(k) && (#[trigger] a[k] as int)
                < (b[k] as int)));
    } else {
        lemma_name_le_meaning(a.drop_first(), b.drop_first());
        let a1 = a.drop_first();
        let b1 = b.drop_first();
        if (a[0] as int) < (b[0] as int) {
            assert(a.take(0) =~= b.take(0));
        } else if a[0] == b[0] {
            if a.len() <= b.len() && b.take(a.len() as int) == a {
                assert(b1.take(a1.len() as int) =~= a1);
            }
            if a1.len() <= b1.len() && b1.take(a1.len() as int) == a1 {
                assert forall|m: int| 0 <= m < a.len() implies b.take(a.len() as int)[m] == a[m] by {
                    if m > 0 {
                        assert(b1.take(a1.len() as int)[m - 1] == a1[m - 1]);
                    }
                }
                assert(b.take(a.len() as int) =~= a);
            }
            if exists|k: int|
                0 <= k < a.len() && k < b.len() && a.take(k) == b.take(k) && (#[trigger] a[k] as int)
                    < (b[k] as int) {
                let k = choose|k: int|
                    0 <= k < a.len() && k < b.len() && a.take(k) == b.take(k) && (#[trigger] a[k] as int)
                        < (b[k] as int);
                assert(k > 0);
                assert(a1.take(k - 1) =~= b1.take(k - 1)) by {
                    assert forall|m: int| 0 <= m < k - 1 implies a1[m] == b1[m] by {
                        assert(a.take(k)[m + 1] == b.take(k)[m + 1]);
                    }
                }
                assert(a1[k - 1] == a[k]);
            }
            if exists|k: int|
                0 <= k < a1.len() && k < b1.len() && a1.take(k) == b1.take(k) && (#[trigger] a1[k] as int)
                    < (b1[k] as int) {
                let k = choose|k: int|
                    0 <= k < a1.len() && k < b1.len() && a1.take(k) == b1.take(k) && (#[trigger] a1[k]
                        as int) < (b1[k] as int);
                assert(a.take(k + 1) =~= b.take(k + 1)) by {
                    assert forall|m: int| 0 <= m < k + 1 implies a[m] == b[m] by {
                        if m > 0 {
                            assert(a1.take(k)[m - 1] == b1.take(k)[m - 1]);
                        }
                    }
                }
                assert(a[k + 1] == a1[k]);
            }
        } else {
            assert(!(a.len() <= b.len() && b.take(a.len() as int) == a)) by {
                if a.len() <= b.len() {
                    assert(b.take(a.len() as int)[0] != a[0]);
                }
            }
            assert forall|k: int|
                0 <= k < a.len() && k < b.len() && a.take(k) == b.take(k) implies !((#[trigger] a[k]
                as int) < (b[k] as int)) by {
                if k > 0 {
                    assert(a.take(k)[0] == b.take(k)[0]);
                }
            }
        }
    }
}

/// `name_le` is a total order.
pub proof fn lemma_name_order_total()
    ensures
        vstd::relations::total_ordering(name_order()),
{
    assert forall|a: Seq<char>| #[trigger] name_order()(a, a) by {
        lemma_name_le_reflexive(a);
    }
    assert forall|a: Seq<char>, b: Seq<char>|
        #[trigger] name_order()(a, b) && #[trigger] name_order()(b, a) implies a == b by {
        lemma_name_le_antisymmetric(a, b);
    }
    assert forall|a: Seq<char>, b: Seq<char>, c: Seq<char>|
        #[trigger] name_order()(a, b) && #[trigger] name_order()(b, c) implies name_order()(
        a,
        c,
    ) by {
        lemma_name_le_transitive(a, b, c);
    }
    assert forall|a: Seq<char>, b: Seq<char>|
        #[trigger] name_order()(a, b) || #[trigger] name_order()(b, a) by {
        lemma_name_le_total(a, b);
    }
}

/// Whether `a` comes no later than `b` in listing order.
pub fn chars_le(a: &Vec<char>, b: &Vec<char>) -> (r: bool)
    ensures
        r == name_le(a@, b@),
{
    let mut i: usize = 0;
    assert(a@.skip(0) =~= a@);
    assert(b@.skip(0) =~= b@);
    while i < a.len() && i < b.len()
        invariant
            i <= a.len(),
            i <= b.len(),
            name_le(a@, b@) == name_le(a@.skip(i as int), b@.skip(i as int)),
        decreases a.len() - i,
    {
        let x = a[i];
        let y = b[i];
        if x < y {
            return true;
        }
        if x != y {
            return false;
        }
        assert(a@.skip(i as int).drop_first() =~= a@.skip(i + 1));
        assert(b@.skip(i as int).drop_first() =~= b@.skip(i + 1));
        i = i + 1;
    }
    i == a.len()
}

proof fn lemma_insert_keeps_sorted(s: Seq<Seq<char>>, j: int, k: Seq<char>)
    requires
        0 <= j <= s.len(),
        vstd::relations::sorted_by(s, name_order()),
        forall|t: int| 0 <= t < j ==> name_le(#[trigger] s[t], k),
        j < s.len() ==> name_le(k, s[j]),
    ensures
        vstd::relations::sorted_by(s.insert(j, k), name_order()),
{
    lemma_name_order_total();
    let now = s.insert(j, k);
    assert forall|a: int, b: int| 0 <= a < b < now.len() implies #[trigger] name_order()(
        now[a],
        now[b],
    ) by {
        if a < j && b == j {
            assert(name_le(s[a], k));
        } else if a < j && b > j {
            assert(name_order()(s[a], s[b - 1]));
        } else if a == j && b > j {
            if b - 1 > j {
                assert(name_order()(s[j], s[b - 1]));
                lemma_name_le_transitive(k, s[j], s[b - 1]);
            }
        } else if a > j {
            assert(name_order()(s[a - 1], s[b - 1]));
        } else {
            assert(name_order()(s[a], s[b]));
        }
    }
}

/// The listing order arranges the names in ascending `name_le` order and
/// keeps each of them as often as it occurs.
pub proof fn lemma_sorted_names(names: Seq<Seq<char>>)
    ensures
        vstd::relations::sorted_by(sorted_names(names), name_order()),
        sorted_names(names).to_multiset() == names.to_multiset(),
{
    lemma_name_order_total();
    names.lemma_sort_by_ensures(name_order());
}

/// `names` arranged in listing order: the one arrangement of them that
/// `name_le` sorts.
pub open spec fn sorted_names(names: Seq<Seq<char>>) -> Seq<Seq<char>> {
    names.sort_by(name_order())
}

/// The names in listing order (`name_le`), each kept as often as it occurs.
pub fn sort_names(names: Vec<String>) -> (r: Vec<String>)
    ensures
        r.deep_view() == sorted_names(names.deep_view()),
{
    broadcast use vstd::seq_lib::group_to_multiset_ensures;

    let ghost input = names.deep_view();
    let mut sorted: Vec<String> = Vec::new();
    let mut keys: Vec<Vec<char>> = Vec::new();
    let n = names.len();
    let mut i: usize = 0;
    proof {
        lemma_name_order_total();
    }
    while i < n
        invariant
            n == input.len(),
            i <= n,
            names.deep_view() == input,
            keys.len() == sorted.len(),
            forall|t: int| 0 <= t < keys.len() ==> (#[trigger] keys@[t])@ == sorted@[t]@,
            vstd::relations::sorted_by(sorted.deep_view(), name_order()),
            vstd::relations::total_ordering(name_order()),
            sorted.deep_view().to_multiset() == input.take(i as int).to_multiset(),
        decreases n - i,
    {
        let name = names[i].clone();
        let key = chars_of(name.as_str());
        let mut j: usize = 0;
        while j < keys.len() && chars_le(&keys[j], &key)
            invariant
                j <= keys.len(),
                keys.len() == sorted.len(),
                forall|t: int| 0 <= t < keys.len() ==> (#[trigger] keys@[t])@ == sorted@[t]@,
                forall|t: int| 0 <= t < j ==> name_le(#[trigger] sorted@[t]@, key@),
            decreases keys.len() - j,
        {
            j = j + 1;
        }
        let ghost old_sorted = sorted.deep_view();
        let ghost old_keys = keys@;
        proof {
            assert(key@ == input[i as int]);
            if j < keys.len() {
                lemma_name_le_total(sorted@[j as int]@, key@);
            }
        }
        sorted.insert(j, name);
        keys.insert(j, key);
        proof {
            broadcast use vstd::seq_lib::group_to_multiset_ensures;

            let now = sorted.deep_view();
            assert(now =~= old_sorted.insert(j as int, key@));
            lemma_insert_keeps_sorted(old_sorted, j as int, key@);
            assert(input.take(i + 1) =~= input.take(i as int).push(input[i as int]));
            assert(old_sorted.insert(j as int, key@).to_multiset() == old_sorted.to_multiset().insert(
                key@,
            ));
            assert forall|t: int| 0 <= t < keys.len() implies (#[trigger] keys@[t])@
                == sorted@[t]@ by {
                if t < j {
                } else if t > j {
                    assert(keys@[t] == old_keys[t - 1]);
                }
            }
        }
        i = i + 1;
    }
    proof {
        assert(input.take(n as int) =~= input);
        input.lemma_sort_by_ensures(name_order());
        vstd::seq_lib::lemma_sorted_unique(sorted.deep_view(), input.sort_by(name_order()), name_order());
    }
    sorted
}

/// What `str::to_lowercase` gives for a string.
pub uninterp spec fn lowercase(s: Seq<char>) -> Seq<char>;

/// Calls `str::to_lowercase`: the lowercase form of `s` under Unicode's
/// rules (a character's form may depend on its neighbours, as for a final
/// sigma). What that form is, is left to the name `lowercase`; it depends on
/// `s` alone.
#[verifier::external_body]
pub fn to_lowercase(s: &str) -> (r: String)
    ensures
        r@ == lowercase(s@),
{
    s.to_lowercase()
}

/// Whether `c` has Unicode's White_Space property, which is what
/// `char::is_whitespace` tests: the controls U+0009 to U+000D, the space,
/// U+0085, the no-break space U+00A0, U+1680, the spaces U+2000 to U+200A,
/// the line and paragraph separators U+2028 and U+2029, U+202F, U+205F and
/// the ideographic space U+3000.
pub open spec fn whitespace(c: char) -> bool {
    let v = c as u32;
    (0x9 <= v <= 0xd) || v == 0x20 || v == 0x85 || v == 0xa0 || v == 0x1680 || (0x2000 <= v
        <= 0x200a) || v == 0x2028 || v == 0x2029 || v == 0x202f || v == 0x205f || v == 0x3000
}

/// Whether `c` is whitespace, as `char::is_whitespace` says.
pub fn is_whitespace(c: char) -> (r: bool)
    ensures
        r == whitespace(c),
{
    let v = c as u32;
    (0x9 <= v && v <= 0xd) || v == 0x20 || v == 0x85 || v == 0xa0 || v == 0x1680 || (0x2000 <= v
        && v <= 0x200a) || v == 0x2028 || v == 0x2029 || v == 0x202f || v == 0x205f || v == 0x3000
}

/// `s` without its leading whitespace.
pub open spec fn trim_start(s: Seq<char>) -> Seq<char>
    decreases s.len(),
{
    if s.len() > 0 && whitespace(s[0]) {
        trim_start(s.drop_first())
    } else {
        s
    }
}

/// `s` without its trailing whitespace.
pub open spec fn trim_end(s: Seq<char>) -> Seq<char>
    decreases s.len(),
{
    if s.len() > 0 && whitespace(s.last()) {
        trim_end(s.drop_last())
    } else {
        s
    }
}

/// `s` without leading and trailing whitespace.
pub open spec fn trimmed(s: Seq<char>) -> Seq<char> {
    trim_end(trim_start(s))
}

/// `s` without leading and trailing whitespace, as `str::trim` gives it.
pub fn trim(s: &str) -> (r: String)
    ensures
        r@ == trimmed(s@),
{
    let cs = chars_of(s);
    let n = cs.len();
    let mut a: usize = 0;
    assert(cs@.skip(0) =~= cs@);
    while a < n && is_whitespace(cs[a])
        invariant
            a <= n,
            n == cs.len(),
            trim_start(cs@) == trim_start(cs@.skip(a as int)),
        decreases n - a,
    {
        assert(cs@.skip(a as int).drop_first() =~= cs@.skip(a + 1));
        a = a + 1;
    }
    let ghost start = cs@.skip(a as int);
    assert(trim_start(cs@) == start);
    let mut b: usize = n;
    assert(start.take(n - a) =~= start);
    while b > a && is_whitespace(cs[b - 1])
        invariant
            a <= b <= n,
            n == cs.len(),
            start == cs@.skip(a as int),
            trim_end(start) == trim_end(cs@.subrange(a as int, b as int)),
        decreases b,
    {
        assert(cs@.subrange(a as int, b as int).drop_last() =~= cs@.subrange(a as int, b - 1));
        b = b - 1;
    }
    assert(cs@.subrange(a as int, b as int) =~= start.take(b - a));
    let r = String::from_str(s.substring_char(a, b));
    r
}

proof fn lemma_trim_start(s: Seq<char>)
    ensures
        trim_start(s).len() == 0 || !whitespace(trim_start(s)[0]),
        exists|k: int|
            0 <= k <= s.len() && trim_start(s) == #[trigger] s.skip(k) && forall|m: int|
                0 <= m < k ==> whitespace(#[trigger] s[m]),
    decreases s.len(),
{
    if s.len() > 0 && whitespace(s[0]) {
        lemma_trim_start(s.drop_first());
        let k = choose|k: int|
            0 <= k <= s.drop_first().len() && trim_start(s.drop_first()) == #[trigger] s.drop_first().skip(k)
                && forall|m: int| 0 <= m < k ==> whitespace(#[trigger] s.drop_first()[m]);
        assert(s.drop_first().skip(k) =~= s.skip(k + 1));
        assert forall|m: int| 0 <= m < k + 1 implies whitespace(#[trigger] s[m]) by {
            if m > 0 {
                assert(s[m] == s.drop_first()[m - 1]);
            }
        }
    } else {
        assert(s.skip(0) =~= s);
    }
}

proof fn lemma_trim_end(s: Seq<char>)
    ensures
        trim_end(s).len() == 0 || !whitespace(trim_end(s).last()),
        exists|k: int|
            0 <= k <= s.len() && trim_end(s) == #[trigger] s.take(k) && forall|m: int|
                k <= m < s.len() ==> whitespace(#[trigger] s[m]),
    decreases s.len(),
{
    if s.len() > 0 && whitespace(s.last()) {
        lemma_trim_end(s.drop_last());
        let k = choose|k: int|
            0 <= k <= s.drop_last().len() && trim_end(s.drop_last()) == #[trigger] s.drop_last().take(k)
                && forall|m: int| k <= m < s.drop_last().len() ==> whitespace(#[trigger] s.drop_last()[m]);
        assert(s.drop_last().take(k) =~= s.take(k));
        assert forall|m: int| k <= m < s.len() implies whitespace(#[trigger] s[m]) by {
            if m < s.len() - 1 {
                assert(s[m] == s.drop_last()[m]);
            }
        }
    } else {
        assert(s.take(s.len() as int) =~= s);
    }
}

/// Trimming keeps a run of consecutive characters of the text and removes
/// only whitespace before and after it; it leaves no whitespace at either
/// end, and trimming again changes nothing.
pub proof fn lemma_trimmed(s: Seq<char>)
    ensures
        exists|a: int, b: int|
            0 <= a <= b <= s.len() && trimmed(s) == #[trigger] s.subrange(a, b) && (forall|m: int|
                0 <= m < a ==> whitespace(#[trigger] s[m])) && (forall|m: int|
                b <= m < s.len() ==> whitespace(#[trigger] s[m])),
        trimmed(s).len() == 0 || (!whitespace(trimmed(s)[0]) && !whitespace(trimmed(s).last())),
        trimmed(trimmed(s)) == trimmed(s),
{
    let a = trim_start(s);
    lemma_trim_start(s);
    lemma_trim_end(a);
    let t = trim_end(a);
    let k = choose|k: int| 0 <= k <= a.len() && t == #[trigger] a.take(k) && forall|m: int|
        k <= m < a.len() ==> whitespace(#[trigger] a[m]);
    let j = choose|j: int| 0 <= j <= s.len() && a == #[trigger] s.skip(j) && forall|m: int|
        0 <= m < j ==> whitespace(#[trigger] s[m]);
    assert(t =~= s.subrange(j, j + k));
    assert forall|m: int| j + k <= m < s.len() implies whitespace(#[trigger] s[m]) by {
        assert(s[m] == a[m - j]);
    }
    if t.len() > 0 {
        assert(t[0] == a[0]);
    }
    assert(trim_start(t) == t);
    assert(trim_end(t) == t);
}

/// Whether `q` occurs in `s` as a run of consecutive characters.
pub open spec fn contains_sub(s: Seq<char>, q: Seq<char>) -> bool {
    exists|k: int| 0 <= k && k + q.len() <= s.len() && #[trigger] s.subrange(k, k + q.len()) == q
}

/// Whether `q` occurs in `s` as a run of consecutive characters.
pub fn chars_contain(s: &Vec<char>, q: &Vec<char>) -> (r: bool)
    ensures
        r == contains_sub(s@, q@),
{
    if q.len() > s.len() {
        return false;
    }
    if q.len() == 0 {
        assert(s@.subrange(0, 0 + q@.len() as int) =~= q@);
        return true;
    }
    let last = s.len() - q.len();
    let mut k: usize = 0;
    while k <= last
        invariant
            last == s.len() - q.len(),
            0 < q.len() <= s.len(),
            forall|t: int| 0 <= t < k ==> #[trigger] s@.subrange(t, t + q.len()) != q@,
        decreases last + 1 - k,
    {
        let mut j: usize = 0;
        while j < q.len() && s[k + j] == q[j]
            invariant
                k <= last,
                last == s.len() - q.len(),
                j <= q.len(),
                forall|t: int| 0 <= t < j ==> s@[k + t] == q@[t],
            decreases q.len() - j,
        {
            j = j + 1;
        }
        if j == q.len() {
            assert(s@.subrange(k as int, k + q.len()) =~= q@);
            return true;
        }
        assert(s@.subrange(k as int, k + q.len())[j as int] != q@[j as int]);
        k = k + 1;
    }
    false
}

/// The character of a decimal digit.
pub open spec fn digit_char(d: nat) -> char {
    if d == 0 { '0' }
    else if d == 1 { '1' }
    else if d == 2 { '2' }
    else if d == 3 { '3' }
    else if d == 4 { '4' }
    else if d == 5 { '5' }
    else if d == 6 { '6' }
    else if d == 7 { '7' }
    else if d == 8 { '8' }
    else { '9' }
}

/// `n` written in decimal, without leading zeros.
pub open spec fn decimal(n: nat) -> Seq<char>
    decreases n,
{
    if n < 10 {
        seq![digit_char(n)]
    } else {
        decimal(n / 10) + seq![digit_char(n % 10)]
    }
}

fn digit_str(d: usize) -> (r: &'static str)
    requires
        d < 10,
    ensures
        r@ == seq![digit_char(d as nat)],
{
    proof {
        reveal_strlit("0");
        reveal_strlit("1");
        reveal_strlit("2");
        reveal_strlit("3");
        reveal_strlit("4");
        reveal_strlit("5");
        reveal_strlit("6");
        reveal_strlit("7");
        reveal_strlit("8");
        reveal_strlit("9");
    }
    let r = if d == 0 { "0" }
    else if d == 1 { "1" }
    else if d == 2 { "2" }
    else if d == 3 { "3" }
    else if d == 4 { "4" }
    else if d == 5 { "5" }
    else if d == 6 { "6" }
    else if d == 7 { "7" }
    else if d == 8 { "8" }
    else { "9" };
    assert(r@ =~= seq![digit_char(d as nat)]);
    r
}

/// The number that decimal digits stand for.
pub open spec fn digits_value(s: Seq<char>) -> int
    decreases s.len(),
{
    if s.len() == 0 {
        0
    } else {
        10 * digits_value(s.drop_last()) + (s.last() as int - '0' as int)
    }
}

/// `n` in decimal is a non-empty run of the digits '0' to '9' that stands
/// for `n`, with no leading zero.
pub proof fn lemma_decimal(n: nat)
    ensures
        decimal(n).len() > 0,
        forall|k: int| 0 <= k < decimal(n).len() ==> '0' <= #[trigger] decimal(n)[k] <= '9',
        digits_value(decimal(n)) == n,
        decimal(n).len() > 1 ==> decimal(n)[0] != '0',
        n >= 10 ==> decimal(n).len() > 1,
    decreases n,
{
    lemma_digit_char((n % 10) as nat);
    if n >= 10 {
        lemma_decimal(n / 10);
        if n / 10 < 10 {
            lemma_digit_char(n / 10);
            assert(n / 10 > 0);
            assert(decimal(n / 10)[0] == digit_char(n / 10));
        }
        let d = decimal(n);
        assert(d.drop_last() =~= decimal(n / 10));
        assert(d.last() == digit_char((n % 10) as nat));
        assert(d[0] == decimal(n / 10)[0]);
        assert(digits_value(d) == 10 * digits_value(decimal(n / 10)) + (n % 10) as int);
        assert(n == 10 * (n / 10) + n % 10);
    } else {
        let d = decimal(n);
        assert(d.drop_last() =~= Seq::<char>::empty());
        assert(d.last() == digit_char(n));
        assert(digits_value(d) == 10 * digits_value(d.drop_last()) + (d.last() as int - '0' as int));
        assert(digits_value(Seq::<char>::empty()) == 0);
    }
}

proof fn lemma_digit_char(d: nat)
    requires
        d < 10,
    ensures
        digit_char(d) as int - '0' as int == d,
        '0' <= digit_char(d) <= '9',
        d > 0 ==> digit_char(d) != '0',
{
}

/// Appends `n` in decimal to `out`.
pub fn push_decimal(out: &mut String, n: usize)
    ensures
        final(out)@ == old(out)@ + decimal(n as nat),
    decreases n,
{
    if n >= 10 {
        push_decimal(out, n / 10);
    }
    out.append(digit_str(n % 10));
    proof {
        if n >= 10 {
            assert(out@ =~= old(out)@ + decimal(n as nat));
        }
    }
}

} // verus!
