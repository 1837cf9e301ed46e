//! Passphrase policies: a phrase of space-separated words is valid when no
//! word repeats, or — under the stricter policy — when no word is an
//! anagram of another.

use vstd::prelude::*;

use vstd::multiset::Multiset;

use crate::tower::name_seq;

verus! {

/// The words of a phrase: maximal runs of non-space characters.
pub open spec fn words_of(s: Seq<char>) -> Seq<Seq<char>>
    decreases s.len(),
{
    if s.len() == 0 {
        Seq::empty()
    } else if s.last() == ' ' {
        words_of(s.drop_last())
    } else if s.len() >= 2 && s[s.len() - 2] != ' ' {
        let p = words_of(s.drop_last());
        p.update(p.len() - 1, p.last().push(s.last()))
    } else {
        words_of(s.drop_last()).push(seq![s.last()])
    }
}

/// No two listed values are equal.
pub open spec fn all_distinct<A>(ws: Seq<A>) -> bool {
    forall|i: int, j: int| 0 <= i < j < ws.len() ==> ws[i] != ws[j]
}

/// The letters of each word, order forgotten.
pub open spec fn letter_bags(ws: Seq<Seq<char>>) -> Seq<Multiset<char>> {
    ws.map_values(|w: Seq<char>| w.to_multiset())
}

/// A phrase with a non-space last character ends inside a word.
proof fn lemma_words_nonempty(s: Seq<char>)
    requires
        s.len() > 0,
        s.last() != ' ',
    ensures
        words_of(s).len() >= 1,
    decreases s.len(),
{
    if s.len() >= 2 && s[s.len() - 2] != ' ' {
        lemma_words_nonempty(s.drop_last());
    }
}

/// Once a word boundary is passed, the words before it are settled: they
/// stand unchanged, as a prefix, in the words of any longer prefix of the
/// phrase.
proof fn lemma_words_stable(s: Seq<char>, i: int, j: int)
    requires
        0 <= i <= j <= s.len(),
        i == s.len() || s[i] == ' ',
    ensures
        words_of(s.take(j)).len() >= words_of(s.take(i)).len(),
        forall|k: int|
            0 <= k < words_of(s.take(i)).len() ==> words_of(s.take(j))[k] == #[trigger] words_of(
                s.take(i),
            )[k],
        (j > i && s[j - 1] != ' ') ==> words_of(s.take(j)).len() > words_of(s.take(i)).len(),
    decreases j - i,
{
    if j > i {
        lemma_words_stable(s, i, j - 1);
        let t = s.take(j);
        assert(t.drop_last() =~= s.take(j - 1));
        assert(t.last() == s[j - 1]);
        if s[j - 1] == ' ' {
        } else if j - 1 > i && s[j - 2] != ' ' {
            assert(t.len() >= 2 && t[t.len() - 2] == s[j - 2]);
        } else {
            // Here the previous character is a space (or the boundary
            // itself): a fresh word is pushed.
            if j - 1 == i {
            } else {
                assert(s[j - 2] == ' ' || j - 1 == 0);
                if j >= 2 {
                    assert(t[t.len() - 2] == s[j - 2]);
                }
            }
        }
    } else {
        assert(s.take(i) == s.take(j));
    }
}

/// Whether `x` occurs among the names.
fn seen_contains(v: &Vec<String>, x: &String) -> (r: bool)
    ensures
        r == name_seq(v@).contains(x@),
{
    let mut i: usize = 0;
    while i < v.len()
        invariant
            i <= v@.len(),
            forall|k: int| 0 <= k < i ==> name_seq(v@)[k] != x@,
        decreases v@.len() - i,
    {
        proof {
            assert(name_seq(v@)[i as int] == v@[i as int]@);
        }
        if v[i] == *x {
            return true;
        }
        i = i + 1;
    }
    proof {
        if name_seq(v@).contains(x@) {
            let k = choose|k: int| 0 <= k < name_seq(v@).len() && name_seq(v@)[k] == x@;
        }
    }
    false
}

/// Whether the phrase's space-separated words are pairwise different.
#[verifier::loop_isolation(false)]
pub fn check_duplicates(phrase: &String) -> (r: bool)
    ensures
        r == all_distinct(words_of(phrase@)),
{
    let s = phrase.as_str();
    let n = s.unicode_len();
    let mut seen: Vec<String> = Vec::new();
    let mut cur = String::new();
    let mut i: usize = 0;
    proof {
        assert(phrase@.take(0) =~= Seq::<char>::empty());
    }
    while i < n
        invariant
            i <= n,
            n == phrase@.len(),
            s@ == phrase@,
            cur@.len() == 0 ==> (i == 0 || phrase@[i - 1] == ' ') && name_seq(seen@) == words_of(
                phrase@.take(i as int),
            ),
            cur@.len() > 0 ==> i > 0 && phrase@[i - 1] != ' ' && words_of(phrase@.take(i as int))
                == name_seq(seen@).push(cur@),
            all_distinct(name_seq(seen@)),
        decreases n - i,
    {
        let c = s.get_char(i);
        let ghost t1 = phrase@.take(i + 1);
        proof {
            assert(t1.drop_last() =~= phrase@.take(i as int));
            assert(t1.last() == phrase@[i as int]);
        }
        if c == ' ' {
            if cur.unicode_len() > 0 {
                if seen_contains(&seen, &cur) {
                    proof {
                        lemma_words_nonempty(phrase@.take(i as int));
                        let ws = words_of(phrase@.take(i as int));
                        let k = choose|k: int|
                            0 <= k < name_seq(seen@).len() && name_seq(seen@)[k] == cur@;
                        assert(ws[k] == cur@ && ws[ws.len() - 1] == cur@);
                        lemma_words_stable(phrase@, i as int, phrase@.len() as int);
                        assert(phrase@.take(phrase@.len() as int) =~= phrase@);
                        assert(words_of(phrase@)[k] == cur@);
                        assert(words_of(phrase@)[ws.len() - 1] == cur@);
                    }
                    return false;
                }
                let ghost old_names = name_seq(seen@);
                let ghost cur_v = cur@;
                seen.push(cur);
                cur = String::new();
                proof {
                    assert(name_seq(seen@) =~= old_names.push(cur_v));
                    assert(name_seq(seen@) =~= words_of(phrase@.take(i as int)));
                    assert(all_distinct(name_seq(seen@))) by {
                        let ns = name_seq(seen@);
                        assert forall|a: int, b: int| 0 <= a < b < ns.len() implies ns[a]
                            != ns[b] by {
                            if b == ns.len() - 1 {
                                assert(ns[b] == cur_v);
                                assert(ns[a] == old_names[a]);
                                assert(!old_names.contains(cur_v));
                                if ns[a] == cur_v {
                                    assert(old_names[a] == cur_v);
                                }
                            } else {
                                assert(ns[a] == old_names[a] && ns[b] == old_names[b]);
                            }
                        }
                    }
                }
            }
        } else {
            let ghost cur_old = cur@;
            cur.append(s.substring_char(i, i + 1));
            proof {
                assert(phrase@.subrange(i as int, i + 1) =~= seq![c]);
                assert(cur@ == cur_old + seq![c]);
                assert(cur@ =~= cur_old.push(c));
                if cur_old.len() == 0 {
                    if i > 0 {
                        assert(t1[t1.len() - 2] == phrase@[i - 1]);
                    }
                    assert(words_of(t1) == words_of(phrase@.take(i as int)).push(seq![c]));
                    assert(cur@ =~= seq![c]);
                    assert(words_of(t1) == name_seq(seen@).push(cur@));
                } else {
                    assert(t1.len() >= 2 && t1[t1.len() - 2] == phrase@[i - 1]);
                    let ws = words_of(phrase@.take(i as int));
                    assert(ws == name_seq(seen@).push(cur_old));
                    assert(ws.last() == cur_old && ws.len() == seen@.len() + 1);
                    assert(words_of(t1) == ws.update(ws.len() - 1, cur_old.push(c)));
                    assert(words_of(t1) =~= name_seq(seen@).push(cur@));
                }
            }
        }
        i = i + 1;
    }
    proof {
        assert(phrase@.take(n as int) =~= phrase@);
    }
    if cur.unicode_len() > 0 {
        if seen_contains(&seen, &cur) {
            proof {
                lemma_words_nonempty(phrase@);
                let ws = words_of(phrase@);
                let k = choose|k: int|
                    0 <= k < name_seq(seen@).len() && name_seq(seen@)[k] == cur@;
                assert(ws[k] == cur@ && ws[ws.len() - 1] == cur@);
            }
            return false;
        }
        proof {
            let ws = words_of(phrase@);
            assert(ws =~= name_seq(seen@).push(cur@));
            assert(all_distinct(ws)) by {
                assert forall|a: int, b: int| 0 <= a < b < ws.len() implies ws[a] != ws[b] by {
                    if b < ws.len() - 1 {
                        assert(ws[a] == name_seq(seen@)[a] && ws[b] == name_seq(seen@)[b]);
                    } else {
                        assert(ws[b] == cur@ && ws[a] == name_seq(seen@)[a]);
                    }
                }
            }
        }
        return true;
    }
    proof {
        assert(name_seq(seen@) == words_of(phrase@));
    }
    true
}

/// Characters ordered from large to small.
pub open spec fn char_ge() -> spec_fn(char, char) -> bool {
    |x: char, y: char| x >= y
}

/// A word's letters sorted from large to small: the normal form shared by
/// exactly its anagrams.
pub open spec fn norm(w: Seq<char>) -> Seq<char> {
    w.sort_by(char_ge())
}

/// Two sequences sorted the same way and holding the same letters are the
/// same sequence.
proof fn lemma_sorted_desc_unique(a: Seq<char>, b: Seq<char>)
    requires
        vstd::relations::sorted_by(a, char_ge()),
        vstd::relations::sorted_by(b, char_ge()),
        a.to_multiset() == b.to_multiset(),
    ensures
        a == b,
    decreases a.len(),
{
    broadcast use vstd::seq_lib::group_to_multiset_ensures;

    a.to_multiset_ensures();
    b.to_multiset_ensures();
    if a.len() == 0 {
        assert(b.to_multiset().len() == 0);
        assert(a =~= b);
    } else {
        assert(b.to_multiset().len() == a.to_multiset().len());
        assert(b.len() > 0);
        assert(a[0] == b[0]) by {
            assert(b.to_multiset().count(a[0]) > 0);
            assert(b.contains(a[0]));
            let k = choose|k: int| 0 <= k < b.len() && b[k] == a[0];
            assert(char_ge()(b[0], b[k]) || k == 0);
            assert(a.to_multiset().count(b[0]) > 0);
            assert(a.contains(b[0]));
            let m = choose|m: int| 0 <= m < a.len() && a[m] == b[0];
            assert(char_ge()(a[0], a[m]) || m == 0);
        }
        a.to_multiset_ensures();
        b.to_multiset_ensures();
        assert(a.remove(0).to_multiset() =~= a.to_multiset().remove(a[0]));
        assert(b.remove(0).to_multiset() =~= b.to_multiset().remove(b[0]));
        assert(a.remove(0) =~= a.drop_first());
        assert(b.remove(0) =~= b.drop_first());
        assert(vstd::relations::sorted_by(a.drop_first(), char_ge())) by {
            assert forall|i: int, j: int|
                0 <= i < j < a.drop_first().len() implies char_ge()(
                a.drop_first()[i],
                a.drop_first()[j],
            ) by {
                assert(a.drop_first()[i] == a[i + 1] && a.drop_first()[j] == a[j + 1]);
            }
        }
        assert(vstd::relations::sorted_by(b.drop_first(), char_ge())) by {
            assert forall|i: int, j: int|
                0 <= i < j < b.drop_first().len() implies char_ge()(
                b.drop_first()[i],
                b.drop_first()[j],
            ) by {
                assert(b.drop_first()[i] == b[i + 1] && b.drop_first()[j] == b[j + 1]);
            }
        }
        lemma_sorted_desc_unique(a.drop_first(), b.drop_first());
        assert(a =~= seq![a[0]] + a.drop_first());
        assert(b =~= seq![b[0]] + b.drop_first());
    }
}

/// The letters of a word, sorted from large to small.
fn sort_letters(v: &Vec<char>) -> (r: Vec<char>)
    ensures
        r@ == norm(v@),
{
    let mut r: Vec<char> = Vec::new();
    let mut i: usize = 0;
    proof {
        assert(r@ =~= v@.take(0));
    }
    while i < v.len()
        invariant
            i <= v@.len(),
            vstd::relations::sorted_by(r@, char_ge()),
            r@.to_multiset() == v@.take(i as int).to_multiset(),
        decreases v@.len() - i,
    {
        broadcast use vstd::seq_lib::group_to_multiset_ensures;

        let c = v[i];
        let mut j: usize = 0;
        while j < r.len() && r[j] >= c
            invariant
                j <= r@.len(),
                forall|k: int| 0 <= k < j ==> (#[trigger] r@[k]) >= c,
            decreases r@.len() - j,
        {
            j = j + 1;
        }
        let ghost pre = r@;
        r.insert(j, c);
        proof {
            assert(r@ == pre.insert(j as int, c));
            assert(j < pre.len() ==> pre[j as int] < c);
            assert(vstd::relations::sorted_by(r@, char_ge())) by {
                assert forall|x: int, y: int| 0 <= x < y < r@.len() implies char_ge()(
                    r@[x],
                    r@[y],
                ) by {
                    if y < j {
                        assert(r@[x] == pre[x] && r@[y] == pre[y]);
                    } else if x > j {
                        assert(r@[x] == pre[x - 1] && r@[y] == pre[y - 1]);
                        assert(char_ge()(pre[x - 1], pre[y - 1]));
                    } else if x == j {
                        assert(r@[x] == c && r@[y] == pre[y - 1]);
                        assert(pre[j as int] < c);
                        if y - 1 > j {
                            assert(char_ge()(pre[j as int], pre[y - 1]));
                        }
                    } else if y == j {
                        assert(r@[x] == pre[x] && r@[y] == c);
                        assert(pre[x] >= c);
                    } else {
                        assert(x < j && y > j);
                        assert(r@[x] == pre[x] && r@[y] == pre[y - 1]);
                        assert(pre[x] >= c);
                        assert(pre[j as int] < c);
                        if y - 1 > j {
                            assert(char_ge()(pre[j as int], pre[y - 1]));
                        }
                    }
                }
            }
            assert(pre.insert(j as int, c) =~= pre.take(j as int) + seq![c] + pre.skip(j as int));
            vstd::seq_lib::lemma_multiset_commutative(pre.take(j as int) + seq![c], pre.skip(j as int));
            vstd::seq_lib::lemma_multiset_commutative(pre.take(j as int), seq![c]);
            assert(pre =~= pre.take(j as int) + pre.skip(j as int));
            vstd::seq_lib::lemma_multiset_commutative(pre.take(j as int), pre.skip(j as int));
            assert(seq![c].to_multiset() =~= Multiset::<char>::empty().insert(c)) by {
                assert(seq![c].drop_first() =~= Seq::<char>::empty());
            }
            assert(r@.to_multiset() =~= pre.to_multiset().insert(c));
            assert(v@.take(i + 1).drop_last() =~= v@.take(i as int));
            assert(v@.take(i + 1).last() == c);
            v@.take(i + 1).drop_last().to_multiset_ensures();
            assert(v@.take(i + 1) =~= v@.take(i as int).push(c));
            assert(v@.take(i + 1).to_multiset() =~= v@.take(i as int).to_multiset().insert(c));
        }
        i = i + 1;
    }
    proof {
        assert(v@.take(v@.len() as int) =~= v@);
        v@.lemma_sort_by_ensures(char_ge());
        lemma_sorted_desc_unique(r@, norm(v@));
    }
    r
}

/// Whether two letter lists are equal.
fn letters_equal(a: &Vec<char>, b: &Vec<char>) -> (r: bool)
    ensures
        r == (a@ == b@),
{
    if a.len() != b.len() {
        return false;
    }
    let mut i: usize = 0;
    while i < a.len()
        invariant
            i <= a@.len(),
            a@.len() == b@.len(),
            forall|k: int| 0 <= k < i ==> a@[k] == b@[k],
        decreases a@.len() - i,
    {
        if a[i] != b[i] {
            return false;
        }
        i = i + 1;
    }
    proof {
        assert(a@ =~= b@);
    }
    true
}

/// Two words are anagrams exactly when their sorted letters agree.
proof fn lemma_norm_characterizes_bags(w1: Seq<char>, w2: Seq<char>)
    ensures
        (norm(w1) == norm(w2)) == (w1.to_multiset() == w2.to_multiset()),
{
    w1.lemma_sort_by_ensures(char_ge());
    w2.lemma_sort_by_ensures(char_ge());
    if w1.to_multiset() == w2.to_multiset() {
        lemma_sorted_desc_unique(norm(w1), norm(w2));
    }
}

/// Whether no word of the phrase is an anagram of another: no two words
/// share the same letters.
#[verifier::loop_isolation(false)]
pub fn check_anagrams(phrase: &String) -> (r: bool)
    ensures
        r == all_distinct(letter_bags(words_of(phrase@))),
{
    let s = phrase.as_str();
    let n = s.unicode_len();
    let mut seen: Vec<Vec<char>> = Vec::new();
    let mut cur: Vec<char> = Vec::new();
    let mut i: usize = 0;
    let ghost normed = |w: Seq<char>| norm(w);
    proof {
        assert(phrase@.take(0) =~= Seq::<char>::empty());
    }
    while i < n
        invariant
            i <= n,
            n == phrase@.len(),
            s@ == phrase@,
            cur@.len() == 0 ==> (i == 0 || phrase@[i - 1] == ' ') && seen@.map_values(
                |k: Vec<char>| k@,
            ) == words_of(phrase@.take(i as int)).map_values(normed),
            cur@.len() > 0 ==> i > 0 && phrase@[i - 1] != ' ' && words_of(phrase@.take(i as int))
                == hidden_words(phrase@, i as int) && hidden_words(phrase@, i as int).len() > 0
                && hidden_words(phrase@, i as int).drop_last().map_values(normed) == seen@.map_values(
                |k: Vec<char>| k@,
            ) && hidden_words(phrase@, i as int).last() == cur@,
            all_distinct(seen@.map_values(|k: Vec<char>| k@)),
            normed == (|w: Seq<char>| norm(w)),
        decreases n - i,
    {
        let c = s.get_char(i);
        let ghost t1 = phrase@.take(i + 1);
        proof {
            assert(t1.drop_last() =~= phrase@.take(i as int));
            assert(t1.last() == phrase@[i as int]);
        }
        if c == ' ' {
            if cur.len() > 0 {
                let key = sort_letters(&cur);
                let ghost ws = words_of(phrase@.take(i as int));
                let ghost ks = seen@.map_values(|k: Vec<char>| k@);
                let mut j: usize = 0;
                let mut dup = false;
                while j < seen.len()
                    invariant
                        j <= seen@.len(),
                        ks == seen@.map_values(|k: Vec<char>| k@),
                        key@ == norm(cur@),
                        dup == exists|k: int| 0 <= k < j && #[trigger] ks[k] == key@,
                    decreases seen@.len() - j,
                {
                    proof {
                        assert(ks[j as int] == seen@[j as int]@);
                    }
                    if letters_equal(&seen[j], &key) {
                        dup = true;
                    }
                    j = j + 1;
                }
                if dup {
                    proof {
                        let k = choose|k: int| 0 <= k < ks.len() && #[trigger] ks[k] == key@;
                        assert(ws.drop_last()[k] == ws[k]);
                        assert(norm(ws[k]) == norm(cur@));
                        lemma_norm_characterizes_bags(ws[k], cur@);
                        lemma_words_stable(phrase@, i as int, phrase@.len() as int);
                        assert(phrase@.take(phrase@.len() as int) =~= phrase@);
                        let full = words_of(phrase@);
                        assert(full[k] == ws[k] && full[ws.len() - 1] == cur@);
                        let bags = letter_bags(full);
                        assert(bags[k] == full[k].to_multiset());
                        assert(bags[ws.len() - 1] == cur@.to_multiset());
                    }
                    return false;
                }
                let ghost old_keys = seen@.map_values(|k: Vec<char>| k@);
                seen.push(key);
                cur = Vec::new();
                proof {
                    assert(seen@.map_values(|k: Vec<char>| k@) =~= old_keys.push(norm(
                        ws.last(),
                    )));
                    assert(seen@.map_values(|k: Vec<char>| k@) =~= ws.map_values(normed)) by {
                        assert(ws =~= ws.drop_last().push(ws.last()));
                        assert(ws.map_values(normed) =~= ws.drop_last().map_values(normed).push(
                            norm(ws.last()),
                        ));
                    }
                    let ns = seen@.map_values(|k: Vec<char>| k@);
                    assert(all_distinct(ns)) by {
                        assert forall|a: int, b: int| 0 <= a < b < ns.len() implies ns[a]
                            != ns[b] by {
                            if b == ns.len() - 1 {
                                if ns[a] == ns[b] {
                                    assert(old_keys[a] == ns[b]);
                                }
                            } else {
                                assert(ns[a] == old_keys[a] && ns[b] == old_keys[b]);
                            }
                        }
                    }
                }
            }
        } else {
            let ghost cur_old = cur@;
            cur.push(c);
            proof {
                if cur_old.len() == 0 {
                    if i > 0 {
                        assert(t1[t1.len() - 2] == phrase@[i - 1]);
                    }
                    assert(words_of(t1) == words_of(phrase@.take(i as int)).push(seq![c]));
                    assert(cur@ =~= seq![c]);
                    assert(words_of(t1).drop_last() =~= words_of(phrase@.take(i as int)));
                } else {
                    assert(t1.len() >= 2 && t1[t1.len() - 2] == phrase@[i - 1]);
                    let ws = words_of(phrase@.take(i as int));
                    assert(words_of(t1) == ws.update(ws.len() - 1, cur_old.push(c)));
                    assert(words_of(t1).drop_last() =~= ws.drop_last());
                    assert(words_of(t1).last() == cur@);
                }
            }
        }
        i = i + 1;
    }
    proof {
        assert(phrase@.take(n as int) =~= phrase@);
    }
    if cur.len() > 0 {
        let key = sort_letters(&cur);
        let ghost ws = words_of(phrase@);
        let ghost ks = seen@.map_values(|k: Vec<char>| k@);
        let mut j: usize = 0;
        let mut dup = false;
        while j < seen.len()
            invariant
                j <= seen@.len(),
                ks == seen@.map_values(|k: Vec<char>| k@),
                key@ == norm(cur@),
                dup == exists|k: int| 0 <= k < j && #[trigger] ks[k] == key@,
            decreases seen@.len() - j,
        {
            proof {
                assert(ks[j as int] == seen@[j as int]@);
            }
            if letters_equal(&seen[j], &key) {
                dup = true;
            }
            j = j + 1;
        }
        if dup {
            proof {
                let k = choose|k: int| 0 <= k < ks.len() && #[trigger] ks[k] == key@;
                assert(ws.drop_last()[k] == ws[k]);
                assert(norm(ws[k]) == norm(cur@));
                lemma_norm_characterizes_bags(ws[k], cur@);
                let bags = letter_bags(ws);
                assert(bags[k] == ws[k].to_multiset());
                assert(bags[ws.len() - 1] == cur@.to_multiset());
            }
            return false;
        }
        proof {
            let bags = letter_bags(ws);
            assert(all_distinct(bags)) by {
                assert forall|a: int, b: int| 0 <= a < b < bags.len() implies bags[a] != bags[b] by {
                    assert(bags[a] == ws[a].to_multiset() && bags[b] == ws[b].to_multiset());
                    lemma_norm_characterizes_bags(ws[a], ws[b]);
                    if b < ws.len() - 1 {
                        assert(ks[a] == norm(ws.drop_last()[a]) && ks[b] == norm(
                            ws.drop_last()[b],
                        ));
                        assert(ws.drop_last()[a] == ws[a] && ws.drop_last()[b] == ws[b]);
                    } else {
                        assert(ks[a] == norm(ws.drop_last()[a]));
                        assert(ws.drop_last()[a] == ws[a]);
                        assert(ws[b] == cur@);
                        assert(!(exists|k: int| 0 <= k < ks.len() && #[trigger] ks[k] == key@));
                        if norm(ws[a]) == norm(cur@) {
                            assert(ks[a] == key@);
                        }
                    }
                }
            }
        }
        return true;
    }
    proof {
        let ws = words_of(phrase@);
        let ks = seen@.map_values(|k: Vec<char>| k@);
        let bags = letter_bags(ws);
        assert(all_distinct(bags)) by {
            assert forall|a: int, b: int| 0 <= a < b < bags.len() implies bags[a] != bags[b] by {
                assert(bags[a] == ws[a].to_multiset() && bags[b] == ws[b].to_multiset());
                assert(ks[a] == norm(ws[a]) && ks[b] == norm(ws[b]));
                lemma_norm_characterizes_bags(ws[a], ws[b]);
            }
        }
    }
    true
}

/// The words of a prefix ending inside a word, named so the loop can speak
/// of the settled words and the growing one separately.
pub open spec fn hidden_words(s: Seq<char>, i: int) -> Seq<Seq<char>> {
    words_of(s.take(i))
}

} // verus!
