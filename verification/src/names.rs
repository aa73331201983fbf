//! Names of things in several languages.
use vstd::prelude::*;

use crate::strings::{
    chars_before, lemma_before_irreflexive, lemma_before_total, lemma_before_transitive,
    starts_with_seq, str_before, str_eq, strip_prefix,
};
use crate::tags::Tags;

verus! {

/// The language of a name: `None` for the native name, else the language code.
pub open spec fn lang_view(l: Option<String>) -> Option<Seq<char>> {
    match l {
        Some(s) => Some(s@),
        None => None,
    }
}

pub open spec fn name_pairs_view(s: Seq<(Option<String>, String)>) -> Seq<(Option<Seq<char>>, Seq<char>)> {
    s.map_values(|e: (Option<String>, String)| (lang_view(e.0), e.1@))
}

/// The map that a list of distinct language/name pairs stands for.
pub open spec fn names_map(s: Seq<(Option<Seq<char>>, Seq<char>)>) -> Map<Option<Seq<char>>, Seq<char>>
    decreases s.len(),
{
    if s.len() == 0 {
        Map::empty()
    } else {
        names_map(s.drop_last()).insert(s.last().0, s.last().1)
    }
}

pub open spec fn langs_distinct(s: Seq<(Option<Seq<char>>, Seq<char>)>) -> bool {
    forall|i: int, j: int| 0 <= i < s.len() && 0 <= j < s.len() && i != j ==> s[i].0 != s[j].0
}

proof fn lemma_names_map_lookup(s: Seq<(Option<Seq<char>>, Seq<char>)>, i: int)
    requires
        langs_distinct(s),
        0 <= i < s.len(),
    ensures
        names_map(s).contains_key(s[i].0),
        names_map(s)[s[i].0] == s[i].1,
    decreases s.len(),
{
    if i < s.len() - 1 {
        lemma_names_map_lookup(s.drop_last(), i);
    }
}

proof fn lemma_names_map_absent(s: Seq<(Option<Seq<char>>, Seq<char>)>, k: Option<Seq<char>>)
    requires
        forall|i: int| 0 <= i < s.len() ==> s[i].0 != k,
    ensures
        !names_map(s).contains_key(k),
    decreases s.len(),
{
    if s.len() > 0 {
        lemma_names_map_absent(s.drop_last(), k);
    }
}

pub open spec fn lang_among(s: Seq<(Option<Seq<char>>, Seq<char>)>, n: int, l: Seq<char>) -> bool {
    exists|j: int| 0 <= j < n && s[j].0 == Some(l)
}

pub open spec fn listed(r: Seq<&String>, l: Seq<char>) -> bool {
    exists|m: int| 0 <= m < r.len() && r[m]@ == l
}

/// Texts in ascending order, each once.
pub open spec fn ascending(r: Seq<&String>) -> bool {
    forall|i: int, j: int| 0 <= i < j < r.len() ==> chars_before((#[trigger] r[i])@, (#[trigger] r[j])@)
}

/// Sorts distinct texts into ascending order.
fn sort_texts<'a>(v: Vec<&'a String>) -> (r: Vec<&'a String>)
    requires
        forall|i: int, j: int| 0 <= i < v@.len() && 0 <= j < v@.len() && i != j ==> v@[i]@ != v@[j]@,
    ensures
        forall|l: Seq<char>| #[trigger] listed(r@, l) <==> listed(v@, l),
        ascending(r@),
{
    let mut r: Vec<&'a String> = Vec::new();
    let mut i: usize = 0;
    while i < v.len()
        invariant
            i <= v@.len(),
            forall|a: int, b: int| 0 <= a < v@.len() && 0 <= b < v@.len() && a != b ==> v@[a]@ != v@[b]@,
            forall|l: Seq<char>| #[trigger] listed(r@, l) <==> listed(v@.take(i as int), l),
            ascending(r@),
        decreases v@.len() - i,
    {
        let x = v[i];
        let mut p: usize = 0;
        while p < r.len() && !str_before(x.as_str(), r[p].as_str())
            invariant
                p <= r@.len(),
                forall|q: int| 0 <= q < p ==> !chars_before(x@, (#[trigger] r@[q])@),
            decreases r@.len() - p,
        {
            p = p + 1;
        }
        let ghost prev = r@;
        proof {
            assert(!listed(prev, x@)) by {
                if listed(prev, x@) {
                    assert(listed(v@.take(i as int), x@));
                    let m = choose|m: int| 0 <= m < v@.take(i as int).len() && v@.take(i as int)[m]@ == x@;
                    assert(v@[m]@ == v@[i as int]@);
                }
            }
        }
        r.insert(p, x);
        proof {
            assert forall|a: int, b: int| 0 <= a < b < r@.len() implies chars_before(
                (#[trigger] r@[a])@,
                (#[trigger] r@[b])@,
            ) by {
                if b < p {
                    assert(r@[a] == prev[a] && r@[b] == prev[b]);
                } else if b == p {
                    assert(r@[a] == prev[a]);
                    assert(!chars_before(x@, prev[a]@));
                    assert(prev[a]@ != x@) by {
                        assert(listed(prev, prev[a]@));
                    }
                    lemma_before_total(x@, prev[a]@, 0);
                    assert(x@.skip(0) =~= x@);
                    assert(prev[a]@.skip(0) =~= prev[a]@);
                } else if a < p {
                    assert(r@[a] == prev[a] && r@[b] == prev[b - 1]);
                    if a + 1 < b {
                        assert(chars_before(prev[a]@, prev[b - 1]@));
                    }
                } else if a == p {
                    assert(r@[b] == prev[b - 1]);
                    assert(p < prev.len());
                    assert(chars_before(x@, prev[p as int]@));
                    if b - 1 > p {
                        assert(chars_before(prev[p as int]@, prev[b - 1]@));
                        lemma_before_transitive(x@, prev[p as int]@, prev[b - 1]@, 0);
                    }
                } else {
                    assert(r@[a] == prev[a - 1] && r@[b] == prev[b - 1]);
                }
            }
            let t0 = v@.take(i as int);
            let t1 = v@.take(i + 1);
            assert(t1 =~= t0.push(x));
            assert forall|l: Seq<char>| #[trigger] listed(r@, l) <==> listed(t1, l) by {
                if listed(r@, l) {
                    let m = choose|m: int| 0 <= m < r@.len() && r@[m]@ == l;
                    if m == p {
                        assert(t1[i as int] == x);
                    } else {
                        if m < p {
                            assert(r@[m] == prev[m]);
                        } else {
                            assert(r@[m] == prev[m - 1]);
                        }
                        assert(listed(prev, l));
                        assert(listed(t0, l));
                        let q = choose|q: int| 0 <= q < t0.len() && t0[q]@ == l;
                        assert(t1[q] == t0[q]);
                    }
                }
                if listed(t1, l) {
                    let q = choose|q: int| 0 <= q < t1.len() && t1[q]@ == l;
                    if q < i {
                        assert(t0[q] == t1[q]);
                        assert(listed(t0, l));
                        assert(listed(prev, l));
                        let m = choose|m: int| 0 <= m < prev.len() && prev[m]@ == l;
                        if m < p {
                            assert(r@[m] == prev[m]);
                        } else {
                            assert(r@[m + 1] == prev[m]);
                        }
                    } else {
                        assert(r@[p as int] == x);
                    }
                }
            }
        }
        i = i + 1;
    }
    assert(v@.take(v@.len() as int) =~= v@);
    r
}

/// The names of something, per language.
#[derive(Debug)]
pub struct NamePerLanguage {
    entries: Vec<(Option<String>, String)>,
}

/// The names that a set of tags gives: `name` as the native name, and `name:<lang>` for each
/// language.
pub open spec fn spec_names_of_tags(t: Map<Seq<char>, Seq<char>>) -> Map<Option<Seq<char>>, Seq<char>> {
    Map::new(
        |k: Option<Seq<char>>|
            match k {
                None => true,
                Some(lang) => t.contains_key("name:"@ + lang),
            },
        |k: Option<Seq<char>>|
            match k {
                None => t["name"@],
                Some(lang) => t["name:"@ + lang],
            },
    )
}

impl NamePerLanguage {
    pub closed spec fn pairs(&self) -> Seq<(Option<Seq<char>>, Seq<char>)> {
        name_pairs_view(self.entries@)
    }

    #[verifier::type_invariant]
    spec fn wf(&self) -> bool {
        &&& langs_distinct(self.pairs())
        &&& names_map(self.pairs()).contains_key(None)
    }

    /// The name in language `lang`, or the native name when there is none in that language.
    pub fn get(&self, lang: Option<&String>) -> (r: &String)
        ensures
            r@ == (match lang {
                Some(l) => if self@.contains_key(Some(l@)) {
                    self@[Some(l@)]
                } else {
                    self@[None]
                },
                None => self@[None],
            }),
    {
        proof {
            use_type_invariant(self);
        }
        let ghost s = self.pairs();
        let mut native: Option<usize> = None;
        let mut i: usize = 0;
        while i < self.entries.len()
            invariant
                s == self.pairs(),
                langs_distinct(s),
                names_map(s).contains_key(None),
                i <= self.entries@.len(),
                s.len() == self.entries@.len(),
                match native {
                    Some(j) => j < i && s[j as int].0 == None::<Seq<char>>,
                    None => forall|j: int| 0 <= j < i ==> s[j].0 != None::<Seq<char>>,
                },
                match lang {
                    Some(l) => forall|j: int| 0 <= j < i ==> s[j].0 != Some(l@),
                    None => true,
                },
            decreases self.entries@.len() - i,
        {
            assert(s[i as int] == (lang_view(self.entries@[i as int].0), self.entries@[i as int].1@));
            match &self.entries[i].0 {
                Some(k) => {
                    if let Some(l) = lang {
                        if str_eq(k.as_str(), l.as_str()) {
                            proof {
                                lemma_names_map_lookup(s, i as int);
                            }
                            return &self.entries[i].1;
                        }
                    }
                },
                None => {
                    if lang.is_none() {
                        proof {
                            lemma_names_map_lookup(s, i as int);
                        }
                        return &self.entries[i].1;
                    }
                    native = Some(i);
                },
            }
            i = i + 1;
        }
        match native {
            Some(j) => {
                proof {
                    lemma_names_map_lookup(s, j as int);
                    if let Some(l) = lang {
                        lemma_names_map_absent(s, Some(l@));
                    }
                }
                &self.entries[j].1
            },
            None => {
                proof {
                    lemma_names_map_absent(s, None);
                }
                &self.entries[0].1
            },
        }
    }

    /// The names that `tags` gives, if it has a `name`.
    pub fn new(tags: &Tags) -> (r: Option<NamePerLanguage>)
        ensures
            match r {
                Some(n) => tags@.contains_key("name"@) && n@ == spec_names_of_tags(tags@),
                None => !tags@.contains_key("name"@),
            },
    {
        let native_name = match tags.get("name") {
            Some(n) => n,
            None => return None,
        };
        let mut entries: Vec<(Option<String>, String)> = Vec::new();
        entries.push((None, native_name.clone()));
        let n = tags.len();
        let ghost tp = tags.pairs();
        let ghost t = tags@;
        let mut i: usize = 0;
        assert(name_pairs_view(entries@) =~= seq![(None::<Seq<char>>, t["name"@])]);
        while i < n
            invariant
                n == tp.len(),
                tp == tags.pairs(),
                t == tags@,
                crate::tags::keys_distinct(tp),
                forall|j: int| 0 <= j < tp.len() ==> #[trigger] t.contains_key(tp[j].0)
                    && t[tp[j].0] == tp[j].1,
                forall|k: Seq<char>| #[trigger] t.contains_key(k) ==> exists|j: int|
                    0 <= j < tp.len() && tp[j].0 == k,
                t.contains_key("name"@),
                i <= n,
                langs_distinct(name_pairs_view(entries@)),
                name_pairs_view(entries@).len() > 0,
                name_pairs_view(entries@)[0] == (None::<Seq<char>>, t["name"@]),
                forall|m: int|
                    1 <= m < name_pairs_view(entries@).len() ==> {
                        let (k, v) = #[trigger] name_pairs_view(entries@)[m];
                        k is Some && t.contains_key("name:"@ + k->0) && v == t["name:"@ + k->0]
                            && exists|j: int| 0 <= j < i && tp[j].0 == "name:"@ + k->0
                    },
                forall|j: int|
                    0 <= j < i && #[trigger] starts_with_seq(tp[j].0, "name:"@) ==> exists|m: int|
                        1 <= m < name_pairs_view(entries@).len() && name_pairs_view(entries@)[m].0
                            == Some(tp[j].0.skip("name:"@.len() as int)),
            decreases n - i,
        {
            let (k, v) = tags.pair_at(i);
            let ghost prev0 = name_pairs_view(entries@);
            if let Some(lang) = strip_prefix(k.as_str(), "name:") {
                let ghost prev = name_pairs_view(entries@);
                entries.push((Some(String::from_str(lang)), v.clone()));
                proof {
                    assert(k@ =~= "name:"@ + lang@);
                    assert(name_pairs_view(entries@) =~= prev.push((Some(lang@), v@)));
                    assert forall|j: int|
                        0 <= j < i + 1 && #[trigger] starts_with_seq(tp[j].0, "name:"@) implies exists|m: int|
                        1 <= m < name_pairs_view(entries@).len() && name_pairs_view(entries@)[m].0
                            == Some(tp[j].0.skip("name:"@.len() as int)) by {
                        if j == i {
                            assert(name_pairs_view(entries@)[prev.len() as int].0 == Some(lang@));
                        } else {
                            let m = choose|m: int|
                                1 <= m < prev.len() && prev[m].0 == Some(
                                    tp[j].0.skip("name:"@.len() as int),
                                );
                            assert(name_pairs_view(entries@)[m] == prev[m]);
                        }
                    }
                    assert forall|a: int, b: int|
                        0 <= a < name_pairs_view(entries@).len() && 0 <= b < name_pairs_view(
                            entries@,
                        ).len() && a != b implies name_pairs_view(entries@)[a].0 != name_pairs_view(
                        entries@,
                    )[b].0 by {
                        if b == prev.len() && a >= 1 {
                            let ka = prev[a].0->0;
                            let j = choose|j: int| 0 <= j < i && tp[j].0 == "name:"@ + ka;
                            if ka == lang@ {
                                assert(tp[j].0 == tp[i as int].0);
                            }
                        } else if a == prev.len() && b >= 1 {
                            let kb = prev[b].0->0;
                            let j = choose|j: int| 0 <= j < i && tp[j].0 == "name:"@ + kb;
                            if kb == lang@ {
                                assert(tp[j].0 == tp[i as int].0);
                            }
                        }
                    }
                    assert(t.contains_key(tp[i as int].0));
                }
            }
            i = i + 1;
        }
        proof {
            lemma_names_map_lookup(name_pairs_view(entries@), 0);
        }
        let r = NamePerLanguage { entries };
        proof {
            let s = r.pairs();
            lemma_names_map_lookup(s, 0);
            assert forall|k: Option<Seq<char>>| #[trigger] names_map(s).contains_key(k)
                == spec_names_of_tags(t).contains_key(k) && (names_map(s).contains_key(k)
                ==> names_map(s)[k] == spec_names_of_tags(t)[k]) by {
                match k {
                    None => {},
                    Some(lang) => {
                        if t.contains_key("name:"@ + lang) {
                            let j = choose|j: int| 0 <= j < tp.len() && tp[j].0 == "name:"@ + lang;
                            assert(tp[j].0.take("name:"@.len() as int) =~= "name:"@);
                            assert(starts_with_seq(tp[j].0, "name:"@));
                            assert(tp[j].0.skip("name:"@.len() as int) =~= lang);
                            let m = choose|m: int|
                                1 <= m < s.len() && s[m].0 == Some(tp[j].0.skip("name:"@.len() as int));
                            lemma_names_map_lookup(s, m);
                        } else {
                            assert forall|m: int| 0 <= m < s.len() implies s[m].0 != k by {
                                if m >= 1 && s[m].0 == k {
                                    assert(t.contains_key("name:"@ + lang));
                                }
                            }
                            lemma_names_map_absent(s, k);
                        }
                    },
                }
            }
            assert(names_map(s) =~= spec_names_of_tags(t));
        }
        Some(r)
    }

    /// Names something "unnamed".
    pub fn unnamed() -> (r: NamePerLanguage)
        ensures
            r@ == Map::<Option<Seq<char>>, Seq<char>>::empty().insert(None, "unnamed"@),
    {
        let mut entries: Vec<(Option<String>, String)> = Vec::new();
        entries.push((None, String::from_str("unnamed")));
        let r = NamePerLanguage { entries };
        assert(r.pairs() =~= seq![(None::<Seq<char>>, "unnamed"@)]);
        assert(r.pairs().drop_last() =~= Seq::<(Option<Seq<char>>, Seq<char>)>::empty());
        assert(names_map(r.pairs().drop_last()) == Map::<Option<Seq<char>>, Seq<char>>::empty());
        assert(names_map(r.pairs()) =~= Map::<Option<Seq<char>>, Seq<char>>::empty().insert(
            None,
            "unnamed"@,
        ));
        r
    }

    /// The languages that have a name of their own, in ascending order, each once.
    pub fn languages(&self) -> (r: Vec<&String>)
        ensures
            forall|l: Seq<char>| self@.contains_key(Some(l)) <==> #[trigger] listed(r@, l),
            ascending(r@),
    {
        proof {
            use_type_invariant(self);
        }
        let ghost s = self.pairs();
        let mut r: Vec<&String> = Vec::new();
        let mut i: usize = 0;
        while i < self.entries.len()
            invariant
                s == self.pairs(),
                langs_distinct(s),
                i <= self.entries@.len(),
                s.len() == self.entries@.len(),
                forall|l: Seq<char>| #[trigger] lang_among(s, i as int, l) <==> listed(r@, l),
                forall|m: int| 0 <= m < r@.len() ==> lang_among(s, i as int, (#[trigger] r@[m])@),
                forall|a: int, b: int| 0 <= a < r@.len() && 0 <= b < r@.len() && a != b ==> r@[a]@ != r@[b]@,
            decreases self.entries@.len() - i,
        {
            assert(s[i as int] == (lang_view(self.entries@[i as int].0), self.entries@[i as int].1@));
            if let Some(l) = &self.entries[i].0 {
                let ghost prev = r@;
                r.push(l);
                assert forall|m: int| 0 <= m < prev.len() implies prev[m]@ != l@ by {
                    assert(lang_among(s, i as int, prev[m]@));
                    let j = choose|j: int| 0 <= j < i && s[j].0 == Some(prev[m]@);
                    assert(j != i);
                }
                assert(r@[prev.len() as int] == l);
                assert forall|x: Seq<char>| #[trigger] lang_among(s, i + 1, x) <==> listed(r@, x) by {
                    if lang_among(s, i + 1, x) {
                        let j = choose|j: int| 0 <= j < i + 1 && s[j].0 == Some(x);
                        if j < i {
                            assert(lang_among(s, i as int, x));
                            let m = choose|m: int| 0 <= m < prev.len() && prev[m]@ == x;
                            assert(r@[m] == prev[m]);
                        } else {
                            assert(r@[prev.len() as int]@ == x);
                        }
                    }
                    if listed(r@, x) {
                        let m = choose|m: int| 0 <= m < r@.len() && r@[m]@ == x;
                        if m < prev.len() {
                            assert(listed(prev, x));
                            assert(lang_among(s, i as int, x));
                        } else {
                            assert(s[i as int].0 == Some(x));
                        }
                    }
                }
                assert forall|m: int| 0 <= m < r@.len() implies lang_among(s, i + 1, (#[trigger] r@[m])@) by {
                    if m < prev.len() {
                        assert(lang_among(s, i as int, prev[m]@));
                    } else {
                        assert(s[i as int].0 == Some(l@));
                    }
                }
            } else {
                assert forall|x: Seq<char>| #[trigger] lang_among(s, i + 1, x) <==> listed(r@, x) by {
                    if lang_among(s, i + 1, x) {
                        let j = choose|j: int| 0 <= j < i + 1 && s[j].0 == Some(x);
                        assert(j < i);
                        assert(lang_among(s, i as int, x));
                    }
                }
                assert forall|m: int| 0 <= m < r@.len() implies lang_among(s, i + 1, (#[trigger] r@[m])@) by {
                    assert(lang_among(s, i as int, r@[m]@));
                }
            }
            i = i + 1;
        }
        proof {
            assert forall|l: Seq<char>| self@.contains_key(Some(l)) <==> #[trigger] listed(r@, l) by {
                assert(lang_among(s, s.len() as int, l) <==> listed(r@, l));
                if self@.contains_key(Some(l)) {
                    if forall|j: int| 0 <= j < s.len() ==> s[j].0 != Some(l) {
                        lemma_names_map_absent(s, Some(l));
                    }
                } else {
                    if exists|j: int| 0 <= j < s.len() && s[j].0 == Some(l) {
                        let j = choose|j: int| 0 <= j < s.len() && s[j].0 == Some(l);
                        lemma_names_map_lookup(s, j);
                    }
                }
            }
        }
        sort_texts(r)
    }
}

impl View for NamePerLanguage {
    type V = Map<Option<Seq<char>>, Seq<char>>;

    closed spec fn view(&self) -> Map<Option<Seq<char>>, Seq<char>> {
        names_map(self.pairs())
    }
}

} // verus!
