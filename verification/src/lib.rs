use rayon::iter::IntoParallelRefIterator;
use rayon::iter::ParallelIterator;
use vstd::prelude::*;
use vstd::string::StringExecFns;

pub mod codec;
pub mod comments_docsource;
pub mod lifecycle;
pub mod nixpkgs_tree_docsource;
pub mod options_docsource;
pub mod xml_docsource;

verus! {

/// The parts joined with the separator between consecutive parts.
pub open spec fn join_sep(parts: Seq<Seq<char>>, sep: Seq<char>) -> Seq<char>
    decreases parts.len(),
{
    if parts.len() == 0 {
        Seq::empty()
    } else if parts.len() == 1 {
        parts[0]
    } else {
        join_sep(parts.drop_last(), sep) + sep + parts.last()
    }
}

/// Joins strings with the given separator between them.
pub fn join_strings(parts: &Vec<String>, sep: &str) -> (r: String)
    ensures
        r@ == join_sep(parts.deep_view(), sep@),
{
    let mut out = String::new();
    let mut i: usize = 0;
    while i < parts.len()
        invariant
            i <= parts@.len(),
            out@ == join_sep(parts.deep_view().take(i as int), sep@),
        decreases parts@.len() - i,
    {
        if i > 0 {
            out.append(sep);
        }
        out.append(parts[i].as_str());
        proof {
            let views = parts.deep_view();
            assert(views.take(i + 1).drop_last() =~= views.take(i as int));
            assert(views.take(i + 1).last() == views[i as int]);
        }
        i += 1;
    }
    assert(parts.deep_view().take(parts@.len() as int) =~= parts.deep_view());
    out
}

/// A search query that the caller has already folded to ASCII lower case,
/// borrowed as raw bytes and shared by many comparisons.
pub struct Lowercase<'a>(pub &'a [u8]);

impl<'a> View for Lowercase<'a> {
    type V = Seq<u8>;

    open spec fn view(&self) -> Seq<u8> {
        self.0@
    }
}

/// ASCII case folding of one byte: upper-case letters map to lower case,
/// every other byte (non-ASCII ones included) is left as it is.
pub open spec fn fold_byte(b: u8) -> u8 {
    if 65 <= b && b <= 90 {
        (b + 32) as u8
    } else {
        b
    }
}

/// Byte-wise ASCII case folding of a whole byte sequence.
pub open spec fn fold(s: Seq<u8>) -> Seq<u8> {
    s.map_values(|b: u8| fold_byte(b))
}

/// `s` starts with `prefix` under ASCII case folding of `s` alone;
/// `prefix` is expected to be lower case already.
pub open spec fn starts_with_fold(s: Seq<u8>, prefix: Seq<u8>) -> bool {
    &&& prefix.len() <= s.len()
    &&& forall|i: int| 0 <= i < prefix.len() ==> fold_byte(s[i]) == prefix[i]
}

/// The window of `s` beginning at `j` matches `inner` under ASCII case folding.
pub open spec fn matches_at(s: Seq<u8>, inner: Seq<u8>, j: int) -> bool {
    forall|i: int| 0 <= i < inner.len() ==> fold_byte(s[j + i]) == inner[i]
}

/// Some window of `s` matches `inner` under ASCII case folding.
pub open spec fn contains_fold(s: Seq<u8>, inner: Seq<u8>) -> bool {
    exists|j: int| 0 <= j <= s.len() - inner.len() && matches_at(s, inner, j)
}

/// ASCII case folding of one byte, executable form.
pub fn fold_byte_exec(b: u8) -> (r: u8)
    ensures
        r == fold_byte(b),
{
    if 65 <= b && b <= 90 {
        b + 32
    } else {
        b
    }
}

/// Prefix match under ASCII case folding; the needle must already be lower case.
pub fn starts_with_insensitive_ascii(s: &[u8], prefix: &Lowercase) -> (r: bool)
    ensures
        r == starts_with_fold(s@, prefix@),
{
    let p = prefix.0;
    if s.len() < p.len() {
        return false;
    }
    let mut i: usize = 0;
    while i < p.len()
        invariant
            p@ == prefix@,
            p@.len() <= s@.len(),
            i <= p@.len(),
            forall|k: int| 0 <= k < i ==> fold_byte(s@[k]) == p@[k],
        decreases p@.len() - i,
    {
        if fold_byte_exec(s[i]) != p[i] {
            assert(fold_byte(s@[i as int]) != p@[i as int]);
            return false;
        }
        i += 1;
    }
    true
}

/// Whether the window of `s` of the needle's length starting at `j` matches it.
fn window_matches(s: &[u8], inner: &[u8], j: usize) -> (r: bool)
    requires
        j + inner@.len() <= s@.len() <= usize::MAX,
    ensures
        r == matches_at(s@, inner@, j as int),
{
    let mut i: usize = 0;
    while i < inner.len()
        invariant
            j + inner@.len() <= s@.len() <= usize::MAX,
            i <= inner@.len(),
            forall|k: int| 0 <= k < i ==> fold_byte(s@[j + k]) == inner@[k],
        decreases inner@.len() - i,
    {
        if fold_byte_exec(s[j + i]) != inner[i] {
            assert(fold_byte(s@[j + i]) != inner@[i as int]);
            return false;
        }
        i += 1;
    }
    true
}

/// Substring match under ASCII case folding; the needle must already be lower case.
pub fn contains_insensitive_ascii(s: &[u8], inner: &Lowercase) -> (r: bool)
    ensures
        r == contains_fold(s@, inner@),
{
    let n = inner.0;
    if s.len() < n.len() {
        return false;
    }
    if n.len() == 0 {
        assert(matches_at(s@, n@, 0));
        return true;
    }
    let last: usize = s.len() - n.len();
    let mut j: usize = 0;
    while j <= last
        invariant
            n@ == inner@,
            1 <= n@.len() <= s@.len() <= usize::MAX,
            last == s@.len() - n@.len(),
            j <= last + 1,
            forall|t: int| 0 <= t < j ==> !matches_at(s@, n@, t),
        decreases last + 1 - j,
    {
        if window_matches(s, n, j) {
            assert(0 <= j <= s@.len() - n@.len() && matches_at(s@, n@, j as int));
            return true;
        }
        j += 1;
    }
    false
}

/// The name occurs somewhere in the list.
pub open spec fn name_in(key: Seq<char>, b: Seq<Seq<char>>) -> bool {
    exists|j: int| 0 <= j < b.len() && #[trigger] b[j] == key
}

/// Every name of `a` occurs in `b`, in any position.
pub open spec fn names_subset(a: Seq<Seq<char>>, b: Seq<Seq<char>>) -> bool {
    forall|i: int| 0 <= i < a.len() ==> name_in(#[trigger] a[i], b)
}

/// The two lists hold the same set of names, compared as sets: every name of
/// one occurs in the other, in any position.
pub open spec fn same_name_set(a: Seq<Seq<char>>, b: Seq<Seq<char>>) -> bool {
    names_subset(a, b) && names_subset(b, a)
}

/// Pushes onto a vector, extending its deep view by the element's deep view.
pub fn vec_push_deep<T: DeepView>(v: &mut Vec<T>, x: T)
    ensures
        final(v).deep_view() == old(v).deep_view().push(x.deep_view()),
{
    let ghost xv = x.deep_view();
    let ghost pre = v.deep_view();
    let ghost n0 = v@.len();
    v.push(x);
    proof {
        assert(v@.len() == n0 + 1);
        assert(forall|k: int| 0 <= k < n0 ==> v.deep_view()[k] == pre[k]);
        assert(v.deep_view()[n0 as int] == xv);
        assert(v.deep_view() =~= pre.push(xv));
    }
}

/// What caused an operation of this library, or of a driver around it, to
/// fail; each variant carries plain text for the user.
#[derive(Debug, PartialEq, Eq)]
pub enum Errors {
    /// A source or document file could not be read.
    FileIo { filename: String, message: String },
    /// A cache file could not be read or written.
    CacheFileIo { message: String },
    /// A cache blob did not decode back to a database.
    Deserialize { message: String },
    /// A database could not be turned into a cache blob.
    Serialize { message: String },
    /// An external materializer was missing or exited unsuccessfully.
    ExternalTool { message: String },
    /// An upstream JSON document was malformed.
    Parse { message: String },
    /// An upstream XML document was malformed.
    XmlParse { filename: String, message: String },
}

impl Errors {
    /// The rendered error text.
    pub open spec fn message_spec(&self) -> Seq<char> {
        match self {
            Errors::FileIo { filename, message } => "IO error for file "@ + filename@ + ": "@
                + message@,
            Errors::CacheFileIo { message } => "failed to perform IO on a cache file: "@
                + message@,
            Errors::Deserialize { message } => "failed to deserialize cache: "@ + message@,
            Errors::Serialize { message } => "failed to serialize cache: "@ + message@,
            Errors::ExternalTool { message } => "external tool failed: "@ + message@,
            Errors::Parse { message } => "failed to parse an upstream document: "@ + message@,
            Errors::XmlParse { filename, message } => "XML parsing error for file "@ + filename@
                + ": "@ + message@,
        }
    }

    pub fn message(&self) -> (r: String)
        ensures
            r@ == self.message_spec(),
    {
        let mut out = String::new();
        match self {
            Errors::FileIo { filename, message } => {
                out.append("IO error for file ");
                out.append(filename.as_str());
                out.append(": ");
                out.append(message.as_str());
            },
            Errors::CacheFileIo { message } => {
                out.append("failed to perform IO on a cache file: ");
                out.append(message.as_str());
            },
            Errors::Deserialize { message } => {
                out.append("failed to deserialize cache: ");
                out.append(message.as_str());
            },
            Errors::Serialize { message } => {
                out.append("failed to serialize cache: ");
                out.append(message.as_str());
            },
            Errors::ExternalTool { message } => {
                out.append("external tool failed: ");
                out.append(message.as_str());
            },
            Errors::Parse { message } => {
                out.append("failed to parse an upstream document: ");
                out.append(message.as_str());
            },
            Errors::XmlParse { filename, message } => {
                out.append("XML parsing error for file ");
                out.append(filename.as_str());
                out.append(": ");
                out.append(message.as_str());
            },
        }
        assert(out@ =~= self.message_spec());
        out
    }
}

/// Mathematical model of one search result.
#[verifier::ext_equal]
pub enum DocEntryView {
    OptionDoc(
        crate::options_docsource::OptionsDatabaseType,
        crate::options_docsource::OptionDocumentationView,
    ),
    CommentDoc(crate::comments_docsource::CommentDocumentationView),
    XmlFuncDoc(crate::xml_docsource::XmlFuncDocumentationView),
    NixpkgsTreeDoc(Seq<char>),
}

/// One search result, tagged with the kind of source it came from.
#[derive(Debug, PartialEq, Eq)]
pub enum DocEntry {
    OptionDoc(
        crate::options_docsource::OptionsDatabaseType,
        crate::options_docsource::OptionDocumentation,
    ),
    CommentDoc(crate::comments_docsource::CommentDocumentation),
    XmlFuncDoc(crate::xml_docsource::XmlFuncDocumentation),
    NixpkgsTreeDoc(String),
}

impl View for DocEntry {
    type V = DocEntryView;

    open spec fn view(&self) -> DocEntryView {
        match self {
            DocEntry::OptionDoc(t, x) => DocEntryView::OptionDoc(*t, x@),
            DocEntry::CommentDoc(x) => DocEntryView::CommentDoc(x@),
            DocEntry::XmlFuncDoc(x) => DocEntryView::XmlFuncDoc(x@),
            DocEntry::NixpkgsTreeDoc(x) => DocEntryView::NixpkgsTreeDoc(x@),
        }
    }
}

impl DeepView for DocEntry {
    type V = DocEntryView;

    open spec fn deep_view(&self) -> DocEntryView {
        self.view()
    }
}

impl Clone for DocEntry {
    fn clone(&self) -> (r: Self)
        ensures
            r@ == self@,
    {
        match self {
            DocEntry::OptionDoc(t, x) => DocEntry::OptionDoc(*t, x.clone()),
            DocEntry::CommentDoc(x) => DocEntry::CommentDoc(x.clone()),
            DocEntry::XmlFuncDoc(x) => DocEntry::XmlFuncDoc(x.clone()),
            DocEntry::NixpkgsTreeDoc(x) => DocEntry::NixpkgsTreeDoc(x.clone()),
        }
    }
}

impl DocEntry {
    /// The indexed identifier of the entry.
    pub open spec fn name_spec(&self) -> Seq<char> {
        match self {
            DocEntry::OptionDoc(_, x) => x.name_spec(),
            DocEntry::CommentDoc(x) => x@.key,
            DocEntry::XmlFuncDoc(x) => x@.name,
            DocEntry::NixpkgsTreeDoc(x) => x@,
        }
    }

    pub fn name(&self) -> (r: String)
        ensures
            r@ == self.name_spec(),
    {
        match self {
            DocEntry::OptionDoc(_, x) => x.name(),
            DocEntry::CommentDoc(x) => x.name(),
            DocEntry::XmlFuncDoc(x) => x.name(),
            DocEntry::NixpkgsTreeDoc(x) => x.clone(),
        }
    }

    /// The rendered documentation block of the entry.
    pub open spec fn pretty_printed_spec(&self) -> Seq<char> {
        match self {
            DocEntry::OptionDoc(_, x) => x.pretty_printed_spec(),
            DocEntry::CommentDoc(x) => crate::comments_docsource::comment_pretty_spec(x@),
            DocEntry::XmlFuncDoc(x) => crate::xml_docsource::xml_pretty_spec(x@),
            DocEntry::NixpkgsTreeDoc(x) => x@,
        }
    }

    pub fn pretty_printed(&self) -> (r: String)
        ensures
            r@ == self.pretty_printed_spec(),
    {
        match self {
            DocEntry::OptionDoc(_, x) => x.pretty_printed(),
            DocEntry::CommentDoc(x) => x.pretty_printed(),
            DocEntry::XmlFuncDoc(x) => x.pretty_printed(),
            DocEntry::NixpkgsTreeDoc(x) => x.clone(),
        }
    }

    /// The label of the source the entry came from.
    pub open spec fn source_spec(&self) -> Seq<char> {
        match self {
            DocEntry::OptionDoc(t, _) => match t {
                crate::options_docsource::OptionsDatabaseType::NixOS => "NixOS Options"@,
                crate::options_docsource::OptionsDatabaseType::NixDarwin => "NixDarwin Options"@,
                crate::options_docsource::OptionsDatabaseType::HomeManager => (
                "HomeManager Options"@),
            },
            DocEntry::CommentDoc(_) => "Nixpkgs Comments"@,
            DocEntry::XmlFuncDoc(_) => "Nixpkgs Documentation"@,
            DocEntry::NixpkgsTreeDoc(_) => "Nixpkgs Tree"@,
        }
    }

    pub fn source(&self) -> (r: &str)
        ensures
            r@ == self.source_spec(),
    {
        match self {
            DocEntry::OptionDoc(t, _) => match t {
                crate::options_docsource::OptionsDatabaseType::NixOS => "NixOS Options",
                crate::options_docsource::OptionsDatabaseType::NixDarwin => "NixDarwin Options",
                crate::options_docsource::OptionsDatabaseType::HomeManager => (
                "HomeManager Options"),
            },
            DocEntry::CommentDoc(_) => "Nixpkgs Comments",
            DocEntry::XmlFuncDoc(_) => "Nixpkgs Documentation",
            DocEntry::NixpkgsTreeDoc(_) => "Nixpkgs Tree",
        }
    }
}

/// The uniform capability set of a documentation source: listing every
/// indexed identifier, strict (prefix) search and liberal (substring) search,
/// all under ASCII case folding of the indexed identifier against a
/// pre-folded query.
pub trait DocSource {
    /// Every indexed identifier, in index order.
    spec fn keys_spec(&self) -> Seq<Seq<char>>;

    /// The entries whose identifier starts with the folded query.
    spec fn search_spec(&self, q: Seq<u8>) -> Seq<DocEntryView>;

    /// The entries whose identifier contains the folded query.
    spec fn search_liberal_spec(&self, q: Seq<u8>) -> Seq<DocEntryView>;

    fn all_keys(&self) -> (r: Vec<&str>)
        ensures
            r.deep_view() == self.keys_spec(),
    ;

    fn search(&self, query: &Lowercase) -> (r: Vec<DocEntry>)
        ensures
            r.deep_view() == self.search_spec(query@),
    ;

    fn search_liberal(&self, query: &Lowercase) -> (r: Vec<DocEntry>)
        ensures
            r.deep_view() == self.search_liberal_spec(query@),
    ;
}

/// One registered documentation source, owned by the registry.
pub enum Source {
    Comments(crate::comments_docsource::CommentsDatabase),
    Options(crate::options_docsource::OptionsDatabase),
    Xml(crate::xml_docsource::XmlFuncDocDatabase),
    Tree(crate::nixpkgs_tree_docsource::NixpkgsTreeDatabase),
}

impl DocSource for Source {
    open spec fn keys_spec(&self) -> Seq<Seq<char>> {
        match self {
            Source::Comments(db) => db.keys_spec(),
            Source::Options(db) => db.keys_spec(),
            Source::Xml(db) => db.keys_spec(),
            Source::Tree(db) => db.keys_spec(),
        }
    }

    open spec fn search_spec(&self, q: Seq<u8>) -> Seq<DocEntryView> {
        match self {
            Source::Comments(db) => db.search_spec(q),
            Source::Options(db) => db.search_spec(q),
            Source::Xml(db) => db.search_spec(q),
            Source::Tree(db) => db.search_spec(q),
        }
    }

    open spec fn search_liberal_spec(&self, q: Seq<u8>) -> Seq<DocEntryView> {
        match self {
            Source::Comments(db) => db.search_liberal_spec(q),
            Source::Options(db) => db.search_liberal_spec(q),
            Source::Xml(db) => db.search_liberal_spec(q),
            Source::Tree(db) => db.search_liberal_spec(q),
        }
    }

    fn all_keys(&self) -> (r: Vec<&str>)
        ensures
            r.deep_view() == self.keys_spec(),
    {
        match self {
            Source::Comments(db) => db.all_keys(),
            Source::Options(db) => db.all_keys(),
            Source::Xml(db) => db.all_keys(),
            Source::Tree(db) => db.all_keys(),
        }
    }

    fn search(&self, query: &Lowercase) -> (r: Vec<DocEntry>)
        ensures
            r.deep_view() == self.search_spec(query@),
    {
        match self {
            Source::Comments(db) => db.search(query),
            Source::Options(db) => db.search(query),
            Source::Xml(db) => db.search(query),
            Source::Tree(db) => db.search(query),
        }
    }

    fn search_liberal(&self, query: &Lowercase) -> (r: Vec<DocEntry>)
        ensures
            r.deep_view() == self.search_liberal_spec(query@),
    {
        match self {
            Source::Comments(db) => db.search_liberal(query),
            Source::Options(db) => db.search_liberal(query),
            Source::Xml(db) => db.search_liberal(query),
            Source::Tree(db) => db.search_liberal(query),
        }
    }
}

/// Every indexed identifier of every registered source, in registration
/// order.
pub open spec fn agg_keys(sources: Seq<Source>) -> Seq<Seq<char>>
    decreases sources.len(),
{
    if sources.len() == 0 {
        Seq::empty()
    } else {
        agg_keys(sources.drop_last()) + sources.last().keys_spec()
    }
}

/// The concatenated strict search results of every registered source, in
/// registration order.
pub open spec fn agg_search(sources: Seq<Source>, q: Seq<u8>) -> Seq<DocEntryView>
    decreases sources.len(),
{
    if sources.len() == 0 {
        Seq::empty()
    } else {
        agg_search(sources.drop_last(), q) + sources.last().search_spec(q)
    }
}

/// The concatenated liberal search results of every registered source, in
/// registration order.
pub open spec fn agg_search_liberal(sources: Seq<Source>, q: Seq<u8>) -> Seq<DocEntryView>
    decreases sources.len(),
{
    if sources.len() == 0 {
        Seq::empty()
    } else {
        agg_search_liberal(sources.drop_last(), q) + sources.last().search_liberal_spec(q)
    }
}

/// Relies on rayon's par_iter, flat_map and collect over a vector: every
/// source's keys, concatenated in source order, gathered in parallel.
#[verifier::external_body]
fn par_all_keys<'a>(sources: &'a Vec<Source>) -> (r: Vec<&'a str>)
    ensures
        r.deep_view() == agg_keys(sources@),
{
    sources.par_iter().flat_map(|s| s.all_keys()).collect()
}

/// Relies on rayon's par_iter, flat_map and collect over a vector: every
/// source's strict results, concatenated in source order, searched in
/// parallel.
#[verifier::external_body]
fn par_search(sources: &Vec<Source>, query: &Lowercase) -> (r: Vec<DocEntry>)
    ensures
        r.deep_view() == agg_search(sources@, query@),
{
    sources.par_iter().flat_map(|s| s.search(query)).collect()
}

/// Relies on rayon's par_iter, flat_map and collect over a vector: every
/// source's liberal results, concatenated in source order, searched in
/// parallel.
#[verifier::external_body]
fn par_search_liberal(sources: &Vec<Source>, query: &Lowercase) -> (r: Vec<DocEntry>)
    ensures
        r.deep_view() == agg_search_liberal(sources@, query@),
{
    sources.par_iter().flat_map(|s| s.search_liberal(query)).collect()
}

/// The registry of active documentation sources: it owns them for the run and
/// fans every query out to all of them.
pub struct AggregateDocSource {
    sources: Vec<Source>,
}

impl AggregateDocSource {
    /// The registered sources, in registration order.
    pub closed spec fn sources_spec(&self) -> Seq<Source> {
        self.sources@
    }

    /// An empty registry.
    pub fn new() -> (r: Self)
        ensures
            r.sources_spec() =~= Seq::<Source>::empty(),
    {
        AggregateDocSource { sources: Vec::new() }
    }

    /// Registers one more source; only result ordering depends on the order.
    pub fn add_source(&mut self, source: Source)
        ensures
            final(self).sources_spec() == old(self).sources_spec().push(source),
    {
        self.sources.push(source)
    }
}

impl Default for AggregateDocSource {
    fn default() -> (r: Self)
        ensures
            r.sources_spec() =~= Seq::<Source>::empty(),
    {
        AggregateDocSource::new()
    }
}

impl DocSource for AggregateDocSource {
    open spec fn keys_spec(&self) -> Seq<Seq<char>> {
        agg_keys(self.sources_spec())
    }

    open spec fn search_spec(&self, q: Seq<u8>) -> Seq<DocEntryView> {
        agg_search(self.sources_spec(), q)
    }

    open spec fn search_liberal_spec(&self, q: Seq<u8>) -> Seq<DocEntryView> {
        agg_search_liberal(self.sources_spec(), q)
    }

    fn all_keys(&self) -> (r: Vec<&str>)
        ensures
            r.deep_view() == self.keys_spec(),
    {
        par_all_keys(&self.sources)
    }

    fn search(&self, query: &Lowercase) -> (r: Vec<DocEntry>)
        ensures
            r.deep_view() == self.search_spec(query@),
    {
        par_search(&self.sources, query)
    }

    fn search_liberal(&self, query: &Lowercase) -> (r: Vec<DocEntry>)
        ensures
            r.deep_view() == self.search_liberal_spec(query@),
    {
        par_search_liberal(&self.sources, query)
    }
}

/// A sequence starts with the folding of any of its own prefixes.
pub proof fn lemma_starts_with_fold_of_prefix(h: Seq<u8>, k: int)
    requires
        0 <= k <= h.len(),
    ensures
        starts_with_fold(h, fold(h.take(k))),
{
}

/// A sequence contains the folding of itself.
pub proof fn lemma_contains_fold_self(h: Seq<u8>)
    ensures
        contains_fold(h, fold(h)),
{
    assert(0 <= 0 <= h.len() - fold(h).len() && matches_at(h, fold(h), 0));
}

/// No window can match a needle longer than the haystack.
pub proof fn lemma_contains_fold_longer_needle(h: Seq<u8>, n: Seq<u8>)
    requires
        n.len() > h.len(),
    ensures
        !contains_fold(h, n),
{
}

} // verus!
