use crate::codec::{
    dec_str_list, enc_str_list, lemma_dec_str_list_at, read_str_list, strs_bounded,
    write_str_list, Cache,
};
use crate::{
    contains_fold, contains_insensitive_ascii, name_in, names_subset, same_name_set,
    starts_with_fold, starts_with_insensitive_ascii, vec_push_deep, DocEntry, DocEntryView,
    DocSource, Errors, Lowercase,
};
use vstd::prelude::*;
use vstd::string::StringExecFns;
use vstd::utf8::encode_utf8;

verus! {

/// An index of reachable attribute paths in the package namespace, stored as
/// dotted path strings; replaced wholesale on every refresh.
#[derive(Debug)]
pub struct NixpkgsTreeDatabase {
    keys: Vec<String>,
}

impl View for NixpkgsTreeDatabase {
    type V = Seq<Seq<char>>;

    closed spec fn view(&self) -> Seq<Seq<char>> {
        self.keys.deep_view()
    }
}

impl NixpkgsTreeDatabase {
    /// An empty index.
    pub fn new() -> (r: Self)
        ensures
            r@ =~= Seq::<Seq<char>>::empty(),
    {
        NixpkgsTreeDatabase { keys: Vec::new() }
    }
}

impl Default for NixpkgsTreeDatabase {
    fn default() -> (r: Self)
        ensures
            r@ =~= Seq::<Seq<char>>::empty(),
    {
        NixpkgsTreeDatabase::new()
    }
}

/// The entries of a path list that match the folded query: a prefix match
/// when strict, a substring match when liberal.
pub open spec fn tree_results(keys: Seq<Seq<char>>, q: Seq<u8>, liberal: bool) -> Seq<DocEntryView>
    decreases keys.len(),
{
    if keys.len() == 0 {
        Seq::empty()
    } else {
        let rest = tree_results(keys.drop_last(), q, liberal);
        let key = encode_utf8(keys.last());
        let hit = if liberal {
            contains_fold(key, q)
        } else {
            starts_with_fold(key, q)
        };
        if hit {
            rest.push(DocEntryView::NixpkgsTreeDoc(keys.last()))
        } else {
            rest
        }
    }
}

impl NixpkgsTreeDatabase {
    /// Replaces the whole index with freshly generated paths; reports whether
    /// the set of indexed paths changed.
    pub fn update_from_keys(&mut self, new_keys: Vec<String>) -> (changed: bool)
        ensures
            final(self)@ == new_keys.deep_view(),
            changed == !same_name_set(old(self)@, new_keys.deep_view()),
    {
        let same = names_included(&self.keys, &new_keys) && names_included(&new_keys, &self.keys);
        self.keys = new_keys;
        !same
    }

    fn search_impl(&self, query: &Lowercase, liberal: bool) -> (r: Vec<DocEntry>)
        ensures
            r.deep_view() == tree_results(self@, query@, liberal),
    {
        let mut r: Vec<DocEntry> = Vec::new();
        let mut i: usize = 0;
        while i < self.keys.len()
            invariant
                i <= self.keys@.len(),
                r.deep_view() == tree_results(self@.take(i as int), query@, liberal),
                self@ == self.keys.deep_view(),
            decreases self.keys@.len() - i,
        {
            let key_bytes = self.keys[i].as_str().as_bytes();
            let hit = if liberal {
                contains_insensitive_ascii(key_bytes, query)
            } else {
                starts_with_insensitive_ascii(key_bytes, query)
            };
            proof {
                assert(self@.take(i + 1).drop_last() =~= self@.take(i as int));
                assert(self@.take(i + 1).last() == self@[i as int]);
                assert(self@[i as int] == self.keys@[i as int]@);
            }
            if hit {
                vec_push_deep(&mut r, DocEntry::NixpkgsTreeDoc(self.keys[i].clone()));
            }
            i += 1;
        }
        proof {
            assert(self@.take(self@.len() as int) =~= self@);
        }
        r
    }
}

/// Whether every name of `a` also occurs in `b`.
fn names_included(a: &Vec<String>, b: &Vec<String>) -> (r: bool)
    ensures
        r == names_subset(a.deep_view(), b.deep_view()),
{
    let mut i: usize = 0;
    while i < a.len()
        invariant
            i <= a@.len(),
            forall|k: int| 0 <= k < i ==> name_in(#[trigger] a.deep_view()[k], b.deep_view()),
        decreases a@.len() - i,
    {
        let mut j: usize = 0;
        let mut found = false;
        while j < b.len()
            invariant
                j <= b@.len(),
                i < a@.len(),
                found ==> name_in(a@[i as int]@, b.deep_view()),
                !found ==> forall|t: int| 0 <= t < j ==> #[trigger] b@[t]@ != a@[i as int]@,
            decreases b@.len() - j,
        {
            if !found && b[j] == a[i] {
                found = true;
                assert(b.deep_view()[j as int] == b@[j as int]@);
                assert(name_in(a@[i as int]@, b.deep_view()));
            }
            j += 1;
        }
        if !found {
            assert forall|t: int| 0 <= t < b.deep_view().len() implies #[trigger] b.deep_view()[t]
                != a@[i as int]@ by {
                assert(b@[t]@ != a@[i as int]@);
            }
            assert(!name_in(a@[i as int]@, b.deep_view()));
            assert(!names_subset(a.deep_view(), b.deep_view())) by {
                assert(a.deep_view()[i as int] == a@[i as int]@);
            }
            return false;
        }
        assert(a.deep_view()[i as int] == a@[i as int]@);
        i += 1;
    }
    true
}

impl DocSource for NixpkgsTreeDatabase {
    open spec fn keys_spec(&self) -> Seq<Seq<char>> {
        self@
    }

    open spec fn search_spec(&self, q: Seq<u8>) -> Seq<DocEntryView> {
        tree_results(self@, q, false)
    }

    open spec fn search_liberal_spec(&self, q: Seq<u8>) -> Seq<DocEntryView> {
        tree_results(self@, q, true)
    }

    fn all_keys(&self) -> (r: Vec<&str>)
        ensures
            r.deep_view() == self.keys_spec(),
    {
        let mut r: Vec<&str> = Vec::new();
        let mut i: usize = 0;
        while i < self.keys.len()
            invariant
                i <= self.keys@.len(),
                r.deep_view() =~= self@.take(i as int),
                self@ == self.keys.deep_view(),
            decreases self.keys@.len() - i,
        {
            vec_push_deep(&mut r, self.keys[i].as_str());
            proof {
                assert(r.deep_view() =~= self@.take(i + 1));
            }
            i += 1;
        }
        proof {
            assert(self@.take(self@.len() as int) =~= self@);
            assert(r.deep_view() =~= self@);
        }
        r
    }

    fn search(&self, query: &Lowercase) -> (r: Vec<DocEntry>)
        ensures
            r.deep_view() == self.search_spec(query@),
    {
        self.search_impl(query, false)
    }

    fn search_liberal(&self, query: &Lowercase) -> (r: Vec<DocEntry>)
        ensures
            r.deep_view() == self.search_liberal_spec(query@),
    {
        self.search_impl(query, true)
    }
}

impl Cache for NixpkgsTreeDatabase {
    open spec fn cache_wf(&self) -> bool {
        true
    }

    open spec fn cache_bytes(&self) -> Seq<u8> {
        enc_str_list(self@)
    }

    open spec fn decode_spec(bytes: Seq<u8>) -> Option<Seq<Seq<char>>> {
        match dec_str_list(bytes, 0) {
            Some((l, p)) => if p == bytes.len() {
                Some(l)
            } else {
                None
            },
            None => None,
        }
    }

    fn to_bytes(&self) -> (r: Vec<u8>)
        ensures
            r@ == self.cache_bytes(),
    {
        let mut out: Vec<u8> = Vec::new();
        write_str_list(&mut out, &self.keys);
        proof {
            assert(out@ =~= enc_str_list(self@));
        }
        out
    }

    fn load(content: &[u8]) -> (r: Result<Self, Errors>)
        ensures
            match Self::decode_spec(content@) {
                Some(v) => r matches Ok(db) && db@ == v && db.cache_wf(),
                None => r is Err,
            },
    {
        match read_str_list(content, 0) {
            Some((keys, p)) => {
                if p == content.len() {
                    Ok(NixpkgsTreeDatabase { keys })
                } else {
                    Err(
                        Errors::Deserialize {
                            message: String::from_str("the path cache has bytes left over"),
                        },
                    )
                }
            },
            None => Err(
                Errors::Deserialize {
                    message: String::from_str("the path cache is malformed"),
                },
            ),
        }
    }
}

/// Serializing the path index and reading the blob back reproduces exactly
/// the paths it held.
pub proof fn lemma_tree_cache_round_trip(db: &NixpkgsTreeDatabase)
    requires
        strs_bounded(db@),
    ensures
        NixpkgsTreeDatabase::decode_spec(db.cache_bytes()) == Some(db@),
{
    let b = enc_str_list(db@);
    assert(b.subrange(0, b.len() as int) =~= b);
    lemma_dec_str_list_at(b, 0, db@);
}

/// The views of a list of namespaces with their sub-namespaces.
pub open spec fn namespaces_view(s: Seq<(String, Vec<String>)>) -> Seq<(Seq<char>, Seq<Seq<char>>)> {
    Seq::new(s.len(), |i: int| (s[i].0@, s[i].1.deep_view()))
}

/// The dotted paths contributed by one namespace: its own name, then the name
/// dot-joined with each sub-namespace.
pub open spec fn sub_paths(name: Seq<char>, subs: Seq<Seq<char>>) -> Seq<Seq<char>> {
    Seq::new(subs.len(), |i: int| name + "."@ + subs[i])
}

/// The flattening of a two-level namespace listing to dotted path strings.
pub open spec fn flatten_spec(ns: Seq<(Seq<char>, Seq<Seq<char>>)>) -> Seq<Seq<char>>
    decreases ns.len(),
{
    if ns.len() == 0 {
        Seq::empty()
    } else {
        flatten_spec(ns.drop_last()) + seq![ns.last().0] + sub_paths(ns.last().0, ns.last().1)
    }
}

/// Flattens a two-level namespace listing to dotted path strings, each
/// namespace followed by its sub-namespaces.
pub fn flatten_namespaces(ns: &Vec<(String, Vec<String>)>) -> (r: Vec<String>)
    ensures
        r.deep_view() == flatten_spec(namespaces_view(ns@)),
{
    let mut r: Vec<String> = Vec::new();
    let mut i: usize = 0;
    while i < ns.len()
        invariant
            i <= ns@.len(),
            r.deep_view() == flatten_spec(namespaces_view(ns@.take(i as int))),
        decreases ns@.len() - i,
    {
        let name = &ns[i].0;
        vec_push_deep(&mut r, name.clone());
        let ghost mid = r.deep_view();
        let subs = &ns[i].1;
        let mut j: usize = 0;
        while j < subs.len()
            invariant
                j <= subs@.len(),
                subs@ == ns@[i as int].1@,
                i < ns@.len(),
                name@ == ns@[i as int].0@,
                mid == flatten_spec(namespaces_view(ns@.take(i as int))).push(ns@[i as int].0@),
                r.deep_view() == mid + sub_paths(name@, subs.deep_view()).take(j as int),
            decreases subs@.len() - j,
        {
            let mut p = name.clone();
            p.append(".");
            p.append(subs[j].as_str());
            assert(p@ == name@ + "."@ + subs@[j as int]@);
            vec_push_deep(&mut r, p);
            proof {
                let sp = sub_paths(name@, subs.deep_view());
                assert(sp[j as int] == name@ + "."@ + subs.deep_view()[j as int]);
                assert(subs.deep_view()[j as int] == subs@[j as int]@);
                assert(mid + sp.take(j + 1) =~= (mid + sp.take(j as int)).push(sp[j as int]));
            }
            j += 1;
        }
        proof {
            let nv = namespaces_view(ns@.take(i + 1));
            let sp = sub_paths(name@, subs.deep_view());
            assert(nv.drop_last() =~= namespaces_view(ns@.take(i as int)));
            assert(nv.last() == (ns@[i as int].0@, ns@[i as int].1.deep_view()));
            assert(sp.take(subs@.len() as int) =~= sp);
            assert(subs.deep_view() == ns@[i as int].1.deep_view());
            assert(r.deep_view() =~= flatten_spec(namespaces_view(ns@.take(i + 1))));
        }
        i += 1;
    }
    proof {
        assert(namespaces_view(ns@.take(ns@.len() as int)) =~= namespaces_view(ns@));
    }
    r
}

} // verus!
