use crate::codec::{
    dec_bool, dec_str, dec_str_list, dec_u64, enc_bool, enc_str, enc_str_list, enc_u64,
    lemma_dec_bool_at, lemma_dec_str_at, lemma_dec_str_list_at, lemma_dec_u64_at,
    lemma_split_concat_at, read_bool, read_str, read_str_list, read_u64, str_bounded,
    strs_bounded, write_bool, write_str, write_str_list, write_u64, Cache,
};
use crate::{
    contains_fold, contains_insensitive_ascii, join_sep, join_strings, name_in, names_subset,
    same_name_set, starts_with_fold, starts_with_insensitive_ascii, vec_push_deep, DocEntry,
    DocEntryView, DocSource, Errors, Lowercase,
};
use vstd::prelude::*;
use vstd::string::StringExecFns;
use vstd::utf8::encode_utf8;

verus! {

/// Mathematical model of one option's documentation.
#[verifier::ext_equal]
pub struct OptionDocumentationView {
    pub description: Seq<char>,
    pub read_only: bool,
    pub location: Seq<Seq<char>>,
    pub option_type: Seq<char>,
}

/// Documentation of one configuration option, as found in an option-JSON
/// document: a description, a read-only marker, the option's path split in
/// segments, and the printed form of its type.
#[derive(Debug, PartialEq, Eq)]
pub struct OptionDocumentation {
    description: String,
    read_only: bool,
    location: Vec<String>,
    option_type: String,
}

impl View for OptionDocumentation {
    type V = OptionDocumentationView;

    closed spec fn view(&self) -> OptionDocumentationView {
        OptionDocumentationView {
            description: self.description@,
            read_only: self.read_only,
            location: self.location.deep_view(),
            option_type: self.option_type@,
        }
    }
}

impl DeepView for OptionDocumentation {
    type V = OptionDocumentationView;

    open spec fn deep_view(&self) -> OptionDocumentationView {
        self.view()
    }
}

impl Clone for OptionDocumentation {
    fn clone(&self) -> (r: Self)
        ensures
            r@ == self@,
    {
        let r = OptionDocumentation {
            description: self.description.clone(),
            read_only: self.read_only,
            location: clone_string_vec(&self.location),
            option_type: self.option_type.clone(),
        };
        assert(r@.location =~= self@.location);
        r
    }
}

/// Clones a vector of strings, keeping its sequence of character views.
pub fn clone_string_vec(v: &Vec<String>) -> (r: Vec<String>)
    ensures
        r.deep_view() == v.deep_view(),
{
    let mut r: Vec<String> = Vec::new();
    let mut i: usize = 0;
    while i < v.len()
        invariant
            i <= v@.len(),
            r.deep_view() =~= v.deep_view().take(i as int),
        decreases v@.len() - i,
    {
        let ghost pre = r.deep_view();
        let c = v[i].clone();
        assert(c@ == v@[i as int]@);
        r.push(c);
        proof {
            assert(r.deep_view().len() == pre.len() + 1);
            assert(forall|k: int| 0 <= k < pre.len() ==> r.deep_view()[k] == pre[k]);
            assert(r.deep_view()[pre.len() as int] == v@[i as int].deep_view());
            assert(r.deep_view() =~= v.deep_view().take(i + 1));
        }
        i += 1;
    }
    assert(r.deep_view() =~~= v.deep_view());
    r
}

impl OptionDocumentation {
    /// Builds an option documentation record from its parts.
    pub fn new(
        description: String,
        read_only: bool,
        location: Vec<String>,
        option_type: String,
    ) -> (r: Self)
        ensures
            r@ == (OptionDocumentationView {
                description: description@,
                read_only,
                location: location.deep_view(),
                option_type: option_type@,
            }),
    {
        OptionDocumentation { description, read_only, location, option_type }
    }

    /// The option's identity: its location path joined with dots.
    pub open spec fn name_spec(&self) -> Seq<char> {
        join_sep(self@.location, "."@)
    }

    pub fn name(&self) -> (r: String)
        ensures
            r@ == self.name_spec(),
    {
        join_strings(&self.location, ".")
    }

    /// The rendered documentation block: heading, description and type line.
    pub open spec fn pretty_printed_spec(&self) -> Seq<char> {
        "# "@ + self.name_spec() + "\n"@ + self@.description + "\ntype: "@ + self@.option_type
            + "\n\n"@
    }

    pub fn pretty_printed(&self) -> (r: String)
        ensures
            r@ == self.pretty_printed_spec(),
    {
        let mut out = String::new();
        out.append("# ");
        let name = self.name();
        out.append(name.as_str());
        out.append("\n");
        out.append(self.description.as_str());
        out.append("\ntype: ");
        out.append(self.option_type.as_str());
        out.append("\n\n");
        assert(out@ =~= self.pretty_printed_spec());
        out
    }
}

/// Which flavor of option set a database indexes.
#[derive(Debug, Clone, Copy, PartialEq, Eq, Structural)]
pub enum OptionsDatabaseType {
    NixOS,
    HomeManager,
    NixDarwin,
}

/// An index of option documentation of one flavor, keyed by the option's
/// dotted path; replaced wholesale on every successful refresh.
#[derive(Debug, PartialEq, Eq)]
pub struct OptionsDatabase {
    pub typ: OptionsDatabaseType,
    pub options: Vec<(String, OptionDocumentation)>,
}

impl OptionsDatabase {
    /// An empty database of the given flavor.
    pub fn new(typ: OptionsDatabaseType) -> (r: Self)
        ensures
            r.typ == typ,
            r.options@.len() == 0,
    {
        OptionsDatabase { typ, options: Vec::new() }
    }
}

/// The indexed identifiers of an option list, in index order.
pub open spec fn option_keys(opts: Seq<(String, OptionDocumentation)>) -> Seq<Seq<char>> {
    Seq::new(opts.len(), |i: int| opts[i].0@)
}

/// The entries of an option list whose key matches the folded query: a prefix
/// match when strict, a substring match when liberal.
pub open spec fn option_results(
    typ: OptionsDatabaseType,
    opts: Seq<(String, OptionDocumentation)>,
    q: Seq<u8>,
    liberal: bool,
) -> Seq<DocEntryView>
    decreases opts.len(),
{
    if opts.len() == 0 {
        Seq::empty()
    } else {
        let rest = option_results(typ, opts.drop_last(), q, liberal);
        let key = encode_utf8(opts.last().0@);
        let hit = if liberal {
            contains_fold(key, q)
        } else {
            starts_with_fold(key, q)
        };
        if hit {
            rest.push(DocEntryView::OptionDoc(typ, opts.last().1@))
        } else {
            rest
        }
    }
}

/// Whether every key of `a` also occurs in `b`.
fn keys_included(
    a: &Vec<(String, OptionDocumentation)>,
    b: &Vec<(String, OptionDocumentation)>,
) -> (r: bool)
    ensures
        r == names_subset(option_keys(a@), option_keys(b@)),
{
    let mut i: usize = 0;
    while i < a.len()
        invariant
            i <= a@.len(),
            forall|k: int| 0 <= k < i ==> name_in(#[trigger] option_keys(a@)[k], option_keys(b@)),
        decreases a@.len() - i,
    {
        let mut j: usize = 0;
        let mut found = false;
        while j < b.len()
            invariant
                j <= b@.len(),
                i < a@.len(),
                found ==> name_in(a@[i as int].0@, option_keys(b@)),
                !found ==> forall|t: int| 0 <= t < j ==> #[trigger] b@[t].0@ != a@[i as int].0@,
            decreases b@.len() - j,
        {
            if !found && b[j].0 == a[i].0 {
                found = true;
                assert(option_keys(b@)[j as int] == b@[j as int].0@);
                assert(name_in(a@[i as int].0@, option_keys(b@)));
            }
            j += 1;
        }
        if !found {
            assert forall|t: int| 0 <= t < option_keys(b@).len() implies #[trigger] option_keys(
                b@,
            )[t] != a@[i as int].0@ by {
                assert(b@[t].0@ != a@[i as int].0@);
            }
            assert(!name_in(a@[i as int].0@, option_keys(b@)));
            assert(!names_subset(option_keys(a@), option_keys(b@))) by {
                assert(option_keys(a@)[i as int] == a@[i as int].0@);
            }
            return false;
        }
        assert(option_keys(a@)[i as int] == a@[i as int].0@);
        i += 1;
    }
    true
}

impl OptionsDatabase {
    /// Replaces the whole index with a freshly parsed option list; reports
    /// whether the set of indexed keys changed.
    pub fn update_from_options(&mut self, opts: Vec<(String, OptionDocumentation)>) -> (changed:
        bool)
        ensures
            final(self).typ == old(self).typ,
            final(self).options == opts,
            changed == !same_name_set(option_keys(old(self).options@), option_keys(opts@)),
    {
        let same = keys_included(&self.options, &opts) && keys_included(&opts, &self.options);
        self.options = opts;
        !same
    }

    fn search_impl(&self, query: &Lowercase, liberal: bool) -> (r: Vec<DocEntry>)
        ensures
            r.deep_view() == option_results(self.typ, self.options@, query@, liberal),
    {
        let mut r: Vec<DocEntry> = Vec::new();
        let mut i: usize = 0;
        while i < self.options.len()
            invariant
                i <= self.options@.len(),
                r.deep_view() == option_results(
                    self.typ,
                    self.options@.take(i as int),
                    query@,
                    liberal,
                ),
            decreases self.options@.len() - i,
        {
            let key_bytes = self.options[i].0.as_str().as_bytes();
            let hit = if liberal {
                contains_insensitive_ascii(key_bytes, query)
            } else {
                starts_with_insensitive_ascii(key_bytes, query)
            };
            proof {
                let opts = self.options@;
                assert(opts.take(i + 1).drop_last() =~= opts.take(i as int));
                assert(opts.take(i + 1).last() == opts[i as int]);
            }
            if hit {
                vec_push_deep(&mut r, DocEntry::OptionDoc(self.typ, self.options[i].1.clone()));
            }
            i += 1;
        }
        proof {
            assert(self.options@.take(self.options@.len() as int) =~= self.options@);
        }
        r
    }
}

impl DocSource for OptionsDatabase {
    open spec fn keys_spec(&self) -> Seq<Seq<char>> {
        option_keys(self.options@)
    }

    open spec fn search_spec(&self, q: Seq<u8>) -> Seq<DocEntryView> {
        option_results(self.typ, self.options@, q, false)
    }

    open spec fn search_liberal_spec(&self, q: Seq<u8>) -> Seq<DocEntryView> {
        option_results(self.typ, self.options@, q, true)
    }

    fn all_keys(&self) -> (r: Vec<&str>)
        ensures
            r.deep_view() == self.keys_spec(),
    {
        let mut r: Vec<&str> = Vec::new();
        let mut i: usize = 0;
        while i < self.options.len()
            invariant
                i <= self.options@.len(),
                r.deep_view() =~= option_keys(self.options@.take(i as int)),
            decreases self.options@.len() - i,
        {
            vec_push_deep(&mut r, self.options[i].0.as_str());
            proof {
                assert(r.deep_view() =~= option_keys(self.options@.take(i + 1)));
            }
            i += 1;
        }
        proof {
            assert(self.options@.take(self.options@.len() as int) =~= self.options@);
            assert(r.deep_view() =~= option_keys(self.options@));
        }
        r
    }

    fn search(&self, query: &Lowercase) -> (r: Vec<DocEntry>)
        ensures
            r.deep_view() == self.search_spec(query@),
    {
        self.search_impl(query, false)
    }

    fn search_liberal(&self, query: &Lowercase) -> (r: Vec<DocEntry>)
        ensures
            r.deep_view() == self.search_liberal_spec(query@),
    {
        self.search_impl(query, true)
    }
}

} // verus!

verus! {

/// The models of the indexed options: each key with its record's model.
pub open spec fn options_view(s: Seq<(String, OptionDocumentation)>) -> Seq<
    (Seq<char>, OptionDocumentationView),
> {
    Seq::new(s.len(), |i: int| (s[i].0@, s[i].1@))
}

impl View for OptionsDatabase {
    type V = (OptionsDatabaseType, Seq<(Seq<char>, OptionDocumentationView)>);

    open spec fn view(&self) -> (OptionsDatabaseType, Seq<(Seq<char>, OptionDocumentationView)>) {
        (self.typ, options_view(self.options@))
    }
}

/// The flavor as one tag byte.
pub open spec fn enc_typ(t: OptionsDatabaseType) -> Seq<u8> {
    match t {
        OptionsDatabaseType::NixOS => seq![0u8],
        OptionsDatabaseType::HomeManager => seq![1u8],
        OptionsDatabaseType::NixDarwin => seq![2u8],
    }
}

/// Reads a flavor tag byte; any other byte is malformed.
pub open spec fn dec_typ(b: Seq<u8>, pos: int) -> Option<(OptionsDatabaseType, int)> {
    if 0 <= pos && pos + 1 <= b.len() {
        if b[pos] == 0u8 {
            Some((OptionsDatabaseType::NixOS, pos + 1))
        } else if b[pos] == 1u8 {
            Some((OptionsDatabaseType::HomeManager, pos + 1))
        } else if b[pos] == 2u8 {
            Some((OptionsDatabaseType::NixDarwin, pos + 1))
        } else {
            None
        }
    } else {
        None
    }
}

/// One option record as bytes: description, read-only flag, location, type.
pub open spec fn enc_odoc(d: OptionDocumentationView) -> Seq<u8> {
    enc_str(d.description) + (enc_bool(d.read_only) + (enc_str_list(d.location) + enc_str(
        d.option_type,
    )))
}

/// One indexed option as bytes: its key, then its record.
pub open spec fn enc_oentry(e: (Seq<char>, OptionDocumentationView)) -> Seq<u8> {
    enc_str(e.0) + enc_odoc(e.1)
}

/// Indexed options, back to back.
pub open spec fn enc_oentries(l: Seq<(Seq<char>, OptionDocumentationView)>) -> Seq<u8>
    decreases l.len(),
{
    if l.len() == 0 {
        Seq::empty()
    } else {
        enc_oentry(l.first()) + enc_oentries(l.drop_first())
    }
}

/// The record's strings are short enough for their length prefixes.
pub open spec fn odoc_bounded(d: OptionDocumentationView) -> bool {
    str_bounded(d.description) && strs_bounded(d.location) && str_bounded(d.option_type)
}

/// Every indexed option is bounded, and so is their number.
pub open spec fn oentries_bounded(l: Seq<(Seq<char>, OptionDocumentationView)>) -> bool {
    l.len() <= u64::MAX && forall|i: int|
        0 <= i < l.len() ==> str_bounded((#[trigger] l[i]).0) && odoc_bounded(l[i].1)
}

/// Reads one option record.
pub open spec fn dec_odoc(b: Seq<u8>, pos: int) -> Option<(OptionDocumentationView, int)> {
    match dec_str(b, pos) {
        Some((description, p1)) => match dec_bool(b, p1) {
            Some((read_only, p2)) => match dec_str_list(b, p2) {
                Some((location, p3)) => match dec_str(b, p3) {
                    Some((option_type, p4)) => Some(
                        (
                            OptionDocumentationView {
                                description,
                                read_only,
                                location,
                                option_type,
                            },
                            p4,
                        ),
                    ),
                    None => None,
                },
                None => None,
            },
            None => None,
        },
        None => None,
    }
}

/// Reads one indexed option.
pub open spec fn dec_oentry(b: Seq<u8>, pos: int) -> Option<
    ((Seq<char>, OptionDocumentationView), int),
> {
    match dec_str(b, pos) {
        Some((key, p1)) => match dec_odoc(b, p1) {
            Some((d, p2)) => Some(((key, d), p2)),
            None => None,
        },
        None => None,
    }
}

/// Reads `count` indexed options, back to back.
pub open spec fn dec_oentries(b: Seq<u8>, pos: int, count: int) -> Option<
    (Seq<(Seq<char>, OptionDocumentationView)>, int),
>
    decreases count,
    when count >= 0
{
    if count == 0 {
        Some((Seq::empty(), pos))
    } else {
        match dec_oentry(b, pos) {
            Some((e, p)) => match dec_oentries(b, p, count - 1) {
                Some((rest, p2)) => Some((seq![e] + rest, p2)),
                None => None,
            },
            None => None,
        }
    }
}

/// An encoded flavor tag reads back as itself.
pub proof fn lemma_dec_typ_at(b: Seq<u8>, pos: int, t: OptionsDatabaseType)
    requires
        0 <= pos,
        pos + 1 <= b.len(),
        b.subrange(pos, pos + 1) == enc_typ(t),
    ensures
        dec_typ(b, pos) == Some((t, pos + 1)),
{
    assert(b[pos] == enc_typ(t)[0]) by {
        assert(b.subrange(pos, pos + 1)[0] == b[pos]);
    }
}

/// An encoded option record reads back as itself.
pub proof fn lemma_dec_odoc_at(b: Seq<u8>, pos: int, d: OptionDocumentationView)
    requires
        0 <= pos,
        pos + enc_odoc(d).len() <= b.len(),
        b.subrange(pos, pos + enc_odoc(d).len()) == enc_odoc(d),
        odoc_bounded(d),
    ensures
        dec_odoc(b, pos) == Some((d, pos + enc_odoc(d).len())),
{
    let x1 = enc_str(d.description);
    let x2 = enc_bool(d.read_only);
    let x3 = enc_str_list(d.location);
    let x4 = enc_str(d.option_type);
    lemma_split_concat_at(b, pos, x1, x2 + (x3 + x4));
    lemma_dec_str_at(b, pos, d.description);
    let p1 = pos + x1.len();
    lemma_split_concat_at(b, p1, x2, x3 + x4);
    lemma_dec_bool_at(b, p1, d.read_only);
    let p2 = p1 + 1;
    lemma_split_concat_at(b, p2, x3, x4);
    lemma_dec_str_list_at(b, p2, d.location);
    let p3 = p2 + x3.len();
    lemma_dec_str_at(b, p3, d.option_type);
    assert((OptionDocumentationView {
        description: d.description,
        read_only: d.read_only,
        location: d.location,
        option_type: d.option_type,
    }) =~= d);
}

/// An encoded indexed option reads back as itself.
pub proof fn lemma_dec_oentry_at(b: Seq<u8>, pos: int, e: (Seq<char>, OptionDocumentationView))
    requires
        0 <= pos,
        pos + enc_oentry(e).len() <= b.len(),
        b.subrange(pos, pos + enc_oentry(e).len()) == enc_oentry(e),
        str_bounded(e.0),
        odoc_bounded(e.1),
    ensures
        dec_oentry(b, pos) == Some((e, pos + enc_oentry(e).len())),
{
    lemma_split_concat_at(b, pos, enc_str(e.0), enc_odoc(e.1));
    lemma_dec_str_at(b, pos, e.0);
    lemma_dec_odoc_at(b, pos + enc_str(e.0).len(), e.1);
    assert((e.0, e.1) == e);
}

/// Encoded indexed options read back as themselves, one after the other.
#[verifier::rlimit(100)]
pub proof fn lemma_dec_oentries_at(b: Seq<u8>, pos: int, l: Seq<(Seq<char>, OptionDocumentationView)>)
    requires
        0 <= pos,
        pos + enc_oentries(l).len() <= b.len(),
        b.subrange(pos, pos + enc_oentries(l).len()) == enc_oentries(l),
        forall|i: int|
            0 <= i < l.len() ==> str_bounded((#[trigger] l[i]).0) && odoc_bounded(l[i].1),
    ensures
        dec_oentries(b, pos, l.len() as int) == Some((l, pos + enc_oentries(l).len())),
    decreases l.len(),
{
    if l.len() == 0 {
        assert(l =~= Seq::<(Seq<char>, OptionDocumentationView)>::empty());
    } else {
        let e = l.first();
        let rest = l.drop_first();
        assert(l[0] == e);
        lemma_split_concat_at(b, pos, enc_oentry(e), enc_oentries(rest));
        lemma_dec_oentry_at(b, pos, e);
        assert(forall|i: int| 0 <= i < rest.len() ==> rest[i] == l[i + 1]);
        lemma_dec_oentries_at(b, pos + enc_oentry(e).len(), rest);
        assert(seq![e] + rest =~= l);
    }
}

/// Appending one indexed option extends the encoding at the end.
pub proof fn lemma_enc_oentries_snoc(
    l: Seq<(Seq<char>, OptionDocumentationView)>,
    x: (Seq<char>, OptionDocumentationView),
)
    ensures
        enc_oentries(l.push(x)) == enc_oentries(l) + enc_oentry(x),
    decreases l.len(),
{
    if l.len() == 0 {
        assert(l.push(x).first() == x);
        assert(l.push(x).drop_first() =~= Seq::<(Seq<char>, OptionDocumentationView)>::empty());
        assert(enc_oentries(l.push(x)) == enc_oentry(x) + enc_oentries((l.push(x)).drop_first()));
        assert(enc_oentries((l.push(x)).drop_first()) == Seq::<u8>::empty());
        assert(enc_oentries(l) == Seq::<u8>::empty());
        assert(enc_oentry(x) + Seq::<u8>::empty() =~= Seq::<u8>::empty() + enc_oentry(x));
    } else {
        let f = enc_oentry(l.first());
        assert((l.push(x)).first() == l.first());
        assert((l.push(x)).drop_first() =~= l.drop_first().push(x));
        lemma_enc_oentries_snoc(l.drop_first(), x);
        assert(enc_oentries(l.push(x)) == f + enc_oentries((l.push(x)).drop_first()));
        assert(enc_oentries(l) == f + enc_oentries(l.drop_first()));
        assert(f + (enc_oentries(l.drop_first()) + enc_oentry(x)) =~= (f + enc_oentries(
            l.drop_first(),
        )) + enc_oentry(x));
    }
}

/// Appends one option record to a cache blob.
fn write_odoc(out: &mut Vec<u8>, d: &OptionDocumentation)
    ensures
        final(out)@ == old(out)@ + enc_odoc(d@),
{
    write_str(out, d.description.as_str());
    write_bool(out, d.read_only);
    write_str_list(out, &d.location);
    write_str(out, d.option_type.as_str());
    assert(out@ =~= old(out)@ + enc_odoc(d@));
}

/// Reads one option record from a cache blob.
fn read_odoc(b: &[u8], pos: usize) -> (r: Option<(OptionDocumentation, usize)>)
    ensures
        match r {
            Some((d, p)) => dec_odoc(b@, pos as int) == Some((d@, p as int)),
            None => dec_odoc(b@, pos as int) is None,
        },
{
    let (description, p1) = match read_str(b, pos) {
        Some(x) => x,
        None => { return None; },
    };
    let (read_only, p2) = match read_bool(b, p1) {
        Some(x) => x,
        None => { return None; },
    };
    let (location, p3) = match read_str_list(b, p2) {
        Some(x) => x,
        None => { return None; },
    };
    let (option_type, p4) = match read_str(b, p3) {
        Some(x) => x,
        None => { return None; },
    };
    let ghost descv = description@;
    let ghost locv = location.deep_view();
    let ghost typv = option_type@;
    let d = OptionDocumentation { description, read_only, location, option_type };
    proof {
        assert(d@ =~= (OptionDocumentationView {
            description: descv,
            read_only,
            location: locv,
            option_type: typv,
        }));
        assert(dec_odoc(b@, pos as int) == Some((d@, p4 as int)));
    }
    Some((d, p4))
}

impl Cache for OptionsDatabase {
    open spec fn cache_wf(&self) -> bool {
        true
    }

    open spec fn cache_bytes(&self) -> Seq<u8> {
        enc_typ(self.typ) + (enc_u64(self.options@.len() as u64) + enc_oentries(
            options_view(self.options@),
        ))
    }

    open spec fn decode_spec(bytes: Seq<u8>) -> Option<
        (OptionsDatabaseType, Seq<(Seq<char>, OptionDocumentationView)>),
    > {
        match dec_typ(bytes, 0) {
            Some((t, p0)) => match dec_u64(bytes, p0) {
                Some((n, p1)) => match dec_oentries(bytes, p1, n as int) {
                    Some((v, p)) => if p == bytes.len() {
                        Some((t, v))
                    } else {
                        None
                    },
                    None => None,
                },
                None => None,
            },
            None => None,
        }
    }

    fn to_bytes(&self) -> (r: Vec<u8>)
        ensures
            r@ == self.cache_bytes(),
    {
        let mut out: Vec<u8> = Vec::new();
        match self.typ {
            OptionsDatabaseType::NixOS => out.push(0),
            OptionsDatabaseType::HomeManager => out.push(1),
            OptionsDatabaseType::NixDarwin => out.push(2),
        }
        proof {
            assert(out@ =~= enc_typ(self.typ));
        }
        write_u64(&mut out, self.options.len() as u64);
        let ghost mid = out@;
        let ghost ev = options_view(self.options@);
        let mut i: usize = 0;
        proof {
            assert(ev.take(0) =~= Seq::<(Seq<char>, OptionDocumentationView)>::empty());
            assert(mid + enc_oentries(ev.take(0)) =~= mid);
        }
        while i < self.options.len()
            invariant
                ev == options_view(self.options@),
                ev.len() == self.options@.len(),
                i <= ev.len(),
                out@ == mid + enc_oentries(ev.take(i as int)),
            decreases ev.len() - i,
        {
            write_str(&mut out, self.options[i].0.as_str());
            write_odoc(&mut out, &self.options[i].1);
            proof {
                assert(ev.take(i + 1) =~= ev.take(i as int).push(ev[i as int]));
                lemma_enc_oentries_snoc(ev.take(i as int), ev[i as int]);
                assert(ev[i as int] == (self.options@[i as int].0@, self.options@[i as int].1@));
                assert(out@ =~= mid + enc_oentries(ev.take(i + 1)));
            }
            i += 1;
        }
        proof {
            assert(ev.take(ev.len() as int) =~= ev);
            assert(out@ =~= self.cache_bytes());
        }
        out
    }

    fn load(content: &[u8]) -> (r: Result<Self, Errors>)
        ensures
            match Self::decode_spec(content@) {
                Some(v) => r matches Ok(db) && db@ == v && db.cache_wf(),
                None => r is Err,
            },
    {
        let typ = if content.len() >= 1 {
            if content[0] == 0 {
                OptionsDatabaseType::NixOS
            } else if content[0] == 1 {
                OptionsDatabaseType::HomeManager
            } else if content[0] == 2 {
                OptionsDatabaseType::NixDarwin
            } else {
                return Err(
                    Errors::Deserialize {
                        message: String::from_str("the option cache names no known flavor"),
                    },
                );
            }
        } else {
            return Err(
                Errors::Deserialize {
                    message: String::from_str("the option cache is empty"),
                },
            );
        };
        proof {
            assert(dec_typ(content@, 0) == Some((typ, 1int)));
        }
        let (n, p0) = match read_u64(content, 1) {
            Some(x) => x,
            None => {
                return Err(
                    Errors::Deserialize {
                        message: String::from_str("the option cache is malformed"),
                    },
                );
            },
        };
        let mut options: Vec<(String, OptionDocumentation)> = Vec::new();
        let mut p = p0;
        let mut k: u64 = 0;
        proof {
            assert(options_view(options@) =~= Seq::<(Seq<char>, OptionDocumentationView)>::empty());
        }
        while k < n
            invariant
                k <= n,
                dec_typ(content@, 0) == Some((typ, 1int)),
                dec_u64(content@, 1) == Some((n, p0 as int)),
                options_view(options@).len() == options@.len(),
                match dec_oentries(content@, p as int, (n - k) as int) {
                    Some((rest, pend)) => dec_oentries(content@, p0 as int, n as int) == Some(
                        (options_view(options@) + rest, pend),
                    ),
                    None => dec_oentries(content@, p0 as int, n as int) is None,
                },
            decreases n - k,
        {
            let (key, p1) = match read_str(content, p) {
                Some(x) => x,
                None => {
                    proof {
                        assert(dec_oentry(content@, p as int) is None);
                        assert(dec_oentries(content@, p as int, (n - k) as int) is None);
                    }
                    return Err(
                        Errors::Deserialize {
                            message: String::from_str("the option cache is malformed"),
                        },
                    );
                },
            };
            let (d, p2) = match read_odoc(content, p1) {
                Some(x) => x,
                None => {
                    proof {
                        assert(dec_oentry(content@, p as int) is None);
                        assert(dec_oentries(content@, p as int, (n - k) as int) is None);
                    }
                    return Err(
                        Errors::Deserialize {
                            message: String::from_str("the option cache is malformed"),
                        },
                    );
                },
            };
            proof {
                assert(dec_oentry(content@, p as int) == Some(((key@, d@), p2 as int)));
                lemma_dec_oentries_step(content@, p as int, (n - k) as int, (key@, d@), p2 as int);
            }
            let ghost pre = options_view(options@);
            let ghost pv = (key@, d@);
            options.push((key, d));
            proof {
                assert(options_view(options@) =~= pre.push(pv));
                match dec_oentries(content@, p2 as int, (n - k - 1) as int) {
                    Some((rest, pend)) => {
                        assert(pre.push(pv) + rest =~= pre + (seq![pv] + rest));
                    },
                    None => {},
                }
            }
            p = p2;
            k += 1;
        }
        proof {
            assert(dec_oentries(content@, p as int, 0) == Some(
                (Seq::<(Seq<char>, OptionDocumentationView)>::empty(), p as int),
            ));
            assert(options_view(options@) + Seq::<(Seq<char>, OptionDocumentationView)>::empty()
                =~= options_view(options@));
        }
        if p != content.len() {
            return Err(
                Errors::Deserialize {
                    message: String::from_str("the option cache has bytes left over"),
                },
            );
        }
        Ok(OptionsDatabase { typ, options })
    }
}

/// One decoded indexed option extends the sequence read so far.
proof fn lemma_dec_oentries_step(
    b: Seq<u8>,
    pos: int,
    count: int,
    e: (Seq<char>, OptionDocumentationView),
    p2: int,
)
    requires
        count > 0,
        dec_oentry(b, pos) == Some((e, p2)),
    ensures
        match dec_oentries(b, p2, count - 1) {
            Some((rest, pend)) => dec_oentries(b, pos, count) == Some((seq![e] + rest, pend)),
            None => dec_oentries(b, pos, count) is None,
        },
{
}

/// Serializing the option index and reading the blob back reproduces exactly
/// the flavor and options it held.
pub proof fn lemma_options_cache_round_trip(db: &OptionsDatabase)
    requires
        oentries_bounded(options_view(db.options@)),
    ensures
        OptionsDatabase::decode_spec(db.cache_bytes()) == Some(db@),
{
    let v = options_view(db.options@);
    let b = db.cache_bytes();
    let x1 = enc_typ(db.typ);
    let x2 = enc_u64(v.len() as u64);
    let x3 = enc_oentries(v);
    assert(b.subrange(0, b.len() as int) =~= b);
    assert(x1.len() == 1);
    lemma_split_concat_at(b, 0, x1, x2 + x3);
    lemma_dec_typ_at(b, 0, db.typ);
    lemma_split_concat_at(b, 1, x2, x3);
    lemma_dec_u64_at(b, 1, v.len() as u64);
    lemma_dec_oentries_at(b, 9, v);
}

} // verus!
