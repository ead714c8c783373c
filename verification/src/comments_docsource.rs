use crate::codec::{
    dec_opt_str, dec_str, dec_str_list, dec_u32, dec_u64, enc_opt_str, enc_str, enc_str_list,
    enc_u32, enc_u64, lemma_dec_opt_str_at, lemma_dec_str_at, lemma_dec_str_list_at,
    lemma_dec_u32_at, lemma_dec_u64_at, lemma_split_concat_at, opt_str_bounded, read_opt_str,
    read_str, read_str_list, read_u32, read_u64, str_bounded, strs_bounded, write_bool,
    write_opt_str, write_str, write_str_list, write_u32, write_u64, Cache,
};
use crate::{
    contains_fold, contains_insensitive_ascii, join_sep, starts_with_fold,
    starts_with_insensitive_ascii, vec_push_deep, DocEntry, DocEntryView, DocSource, Errors,
    Lowercase,
};
use vstd::pervasive::VecAdditionalExecFns;
use vstd::prelude::*;
use vstd::string::StrSliceExecFns;
use vstd::string::StringExecFns;
use vstd::utf8::encode_utf8;

verus! {

/// The CRC32 checksum (IEEE polynomial) of a byte sequence, the content hash
/// under which processed file contents are cached.
pub uninterp spec fn crc32_of(bytes: Seq<u8>) -> u32;

/// Relies on crc32fast::hash: the CRC32 (IEEE) checksum of the bytes, a
/// function of the bytes alone.
#[verifier::external_body]
pub fn content_hash(content: &[u8]) -> (r: u32)
    ensures
        r == crc32_of(content@),
{
    crc32fast::hash(content)
}

/// Mathematical model of one comment-documented definition.
#[verifier::ext_equal]
pub struct CommentDocumentationView {
    pub key: Seq<char>,
    pub path: Option<Seq<char>>,
    pub comments: Seq<Seq<char>>,
}

/// One definition harvested from a source file: the bound name, the file it
/// came from (if known), and the raw comment lines attached to it, in source
/// order.
#[derive(Debug, PartialEq, Eq)]
pub struct CommentDocumentation {
    pub key: String,
    pub path: Option<String>,
    pub comments: Vec<String>,
}

impl View for CommentDocumentation {
    type V = CommentDocumentationView;

    open spec fn view(&self) -> CommentDocumentationView {
        CommentDocumentationView {
            key: self.key@,
            path: self.path.deep_view(),
            comments: self.comments.deep_view(),
        }
    }
}

impl DeepView for CommentDocumentation {
    type V = CommentDocumentationView;

    open spec fn deep_view(&self) -> CommentDocumentationView {
        self.view()
    }
}

impl Clone for CommentDocumentation {
    fn clone(&self) -> (r: Self)
        ensures
            r@ == self@,
    {
        let path = match &self.path {
            Some(p) => Some(p.clone()),
            None => None,
        };
        let r = CommentDocumentation {
            key: self.key.clone(),
            path,
            comments: crate::options_docsource::clone_string_vec(&self.comments),
        };
        assert(r@ =~= self@);
        r
    }
}

impl CommentDocumentation {
    /// A definition with no recorded origin path.
    pub fn new(key: String, comments: Vec<String>) -> (r: Self)
        ensures
            r@ == (CommentDocumentationView {
                key: key@,
                path: None,
                comments: comments.deep_view(),
            }),
    {
        CommentDocumentation { key, comments, path: None }
    }

    /// The same definition with its origin path recorded.
    pub fn with_path(self, path: String) -> (r: Self)
        ensures
            r@ == (CommentDocumentationView { path: Some(path@), ..self@ }),
    {
        CommentDocumentation { path: Some(path), ..self }
    }

    pub fn name(&self) -> (r: String)
        ensures
            r@ == self@.key,
    {
        self.key.clone()
    }
}

/// The comment text with all leading `#` markers removed.
pub open spec fn strip_leading_hashes(s: Seq<char>) -> Seq<char>
    decreases s.len(),
{
    if s.len() > 0 && s[0] == '#' {
        strip_leading_hashes(s.drop_first())
    } else {
        s
    }
}

/// The comment text with all leading `/*` markers removed.
pub open spec fn strip_leading_block_opens(s: Seq<char>) -> Seq<char>
    decreases s.len(),
{
    if s.len() >= 2 && s[0] == '/' && s[1] == '*' {
        strip_leading_block_opens(s.skip(2))
    } else {
        s
    }
}

/// The comment text with all trailing `*/` markers removed.
pub open spec fn strip_trailing_block_closes(s: Seq<char>) -> Seq<char>
    decreases s.len(),
{
    if s.len() >= 2 && s[s.len() - 2] == '*' && s[s.len() - 1] == '/' {
        strip_trailing_block_closes(s.take(s.len() - 2))
    } else {
        s
    }
}

/// Raw comment text stripped of its delimiter markers: leading `#`s, then
/// leading `/*`s, then trailing `*/`s.
pub open spec fn cleanup_spec(s: Seq<char>) -> Seq<char> {
    strip_trailing_block_closes(strip_leading_block_opens(strip_leading_hashes(s)))
}

/// Strips comment delimiter markers from one raw comment.
pub fn cleanup_comment<'a>(s: &'a str) -> (r: &'a str)
    ensures
        r@ == cleanup_spec(s@),
{
    let n = s.unicode_len();
    let mut start: usize = 0;
    proof {
        assert(s@.skip(0) =~= s@);
    }
    while start < n && s.get_char(start) == '#'
        invariant
            n == s@.len(),
            start <= n,
            strip_leading_hashes(s@) == strip_leading_hashes(s@.skip(start as int)),
        decreases n - start,
    {
        proof {
            assert(s@.skip(start as int).drop_first() =~= s@.skip(start + 1));
        }
        start += 1;
    }
    proof {
        assert(strip_leading_hashes(s@.skip(start as int)) == s@.skip(start as int));
    }
    let ghost after_hashes = s@.skip(start as int);
    while n - start >= 2 && s.get_char(start) == '/' && s.get_char(start + 1) == '*'
        invariant
            n == s@.len(),
            start <= n,
            strip_leading_block_opens(after_hashes) == strip_leading_block_opens(
                s@.skip(start as int),
            ),
        decreases n - start,
    {
        proof {
            assert(s@.skip(start as int).skip(2) =~= s@.skip(start + 2));
        }
        start += 2;
    }
    proof {
        assert(strip_leading_block_opens(s@.skip(start as int)) == s@.skip(start as int));
        assert(s@.skip(start as int) =~= s@.subrange(start as int, n as int));
    }
    let ghost after_opens = s@.subrange(start as int, n as int);
    let mut end: usize = n;
    while end - start >= 2 && s.get_char(end - 2) == '*' && s.get_char(end - 1) == '/'
        invariant
            n == s@.len(),
            start <= end <= n,
            after_opens == s@.subrange(start as int, n as int),
            strip_trailing_block_closes(after_opens) == strip_trailing_block_closes(
                s@.subrange(start as int, end as int),
            ),
        decreases end,
    {
        proof {
            let mid = s@.subrange(start as int, end as int);
            assert(mid[mid.len() - 2] == s@[end - 2]);
            assert(mid[mid.len() - 1] == s@[end - 1]);
            assert(mid.take(mid.len() - 2) =~= s@.subrange(start as int, end - 2));
        }
        end -= 2;
    }
    proof {
        let mid = s@.subrange(start as int, end as int);
        if mid.len() >= 2 {
            assert(mid[mid.len() - 2] == s@[end - 2]);
            assert(mid[mid.len() - 1] == s@[end - 1]);
        }
        assert(strip_trailing_block_closes(mid) == mid);
    }
    s.substring_char(start, end)
}

/// The hash occurs among the cached entries.
pub open spec fn hash_in(entries: Seq<(u32, Vec<CommentDocumentation>)>, h: u32) -> bool {
    exists|j: int| 0 <= j < entries.len() && #[trigger] entries[j].0 == h
}

/// No two cached entries share a content hash.
pub open spec fn unique_hashes(entries: Seq<(u32, Vec<CommentDocumentation>)>) -> bool {
    forall|i: int, j: int| 0 <= i < j < entries.len() ==> entries[i].0 != entries[j].0
}

/// The cache that maps the content hash of a fully processed source file to
/// the definitions extracted from it. A hash that is present means that exact
/// byte content has been processed; entries only grow within a run.
#[derive(Debug, PartialEq, Eq)]
pub struct CommentsDatabase {
    pub hash_to_defs: Vec<(u32, Vec<CommentDocumentation>)>,
}

impl CommentsDatabase {
    /// Hashes are never cached twice.
    pub open spec fn wf(&self) -> bool {
        unique_hashes(self.hash_to_defs@)
    }

    /// An empty cache.
    pub fn new() -> (r: Self)
        ensures
            r.hash_to_defs@.len() == 0,
            r.wf(),
    {
        CommentsDatabase { hash_to_defs: Vec::new() }
    }

    /// Whether this exact content has been processed already.
    pub fn is_in_cache(&self, hash: u32) -> (r: bool)
        ensures
            r == hash_in(self.hash_to_defs@, hash),
    {
        let mut j: usize = 0;
        while j < self.hash_to_defs.len()
            invariant
                j <= self.hash_to_defs@.len(),
                forall|t: int| 0 <= t < j ==> #[trigger] self.hash_to_defs@[t].0 != hash,
            decreases self.hash_to_defs@.len() - j,
        {
            if self.hash_to_defs[j].0 == hash {
                return true;
            }
            j += 1;
        }
        false
    }

    /// Records the definitions extracted from content with this hash,
    /// replacing an entry with the same hash in place and handing its old
    /// definitions back, or appending a new entry.
    pub fn add_to_cache(&mut self, hash: u32, defs: Vec<CommentDocumentation>) -> (old_defs: Option<
        Vec<CommentDocumentation>,
    >)
        ensures
            !hash_in(old(self).hash_to_defs@, hash) ==> {
                &&& final(self).hash_to_defs@ == old(self).hash_to_defs@.push((hash, defs))
                &&& old_defs is None
            },
            hash_in(old(self).hash_to_defs@, hash) ==> exists|i: int|
                {
                    &&& 0 <= i < old(self).hash_to_defs@.len()
                    &&& old(self).hash_to_defs@[i].0 == hash
                    &&& final(self).hash_to_defs@ == old(self).hash_to_defs@.update(
                        i,
                        (hash, defs),
                    )
                    &&& old_defs == Some(old(self).hash_to_defs@[i].1)
                },
            old(self).wf() ==> final(self).wf(),
    {
        let ghost entries = self.hash_to_defs@;
        let mut j: usize = 0;
        while j < self.hash_to_defs.len()
            invariant
                entries == self.hash_to_defs@,
                entries == old(self).hash_to_defs@,
                j <= entries.len(),
                forall|t: int| 0 <= t < j ==> #[trigger] entries[t].0 != hash,
            decreases entries.len() - j,
        {
            if self.hash_to_defs[j].0 == hash {
                let ghost dv = defs;
                let mut pair = (hash, defs);
                self.hash_to_defs.set_and_swap(j, &mut pair);
                proof {
                    assert(hash_in(entries, hash));
                    assert(self.hash_to_defs@ == entries.update(j as int, (hash, dv)));
                    assert(pair == entries[j as int]);
                    assert(unique_hashes(entries) ==> unique_hashes(self.hash_to_defs@)) by {
                        if unique_hashes(entries) {
                            assert forall|a: int, b: int|
                                0 <= a < b < self.hash_to_defs@.len() implies self.hash_to_defs@[
                                a].0 != self.hash_to_defs@[b].0 by {
                                assert(entries[a].0 != entries[b].0);
                            }
                        }
                    }
                }
                return Some(pair.1);
            }
            j += 1;
        }
        proof {
            assert(!hash_in(entries, hash));
        }
        self.hash_to_defs.push((hash, defs));
        proof {
            assert(unique_hashes(entries) ==> unique_hashes(self.hash_to_defs@)) by {
                if unique_hashes(entries) {
                    assert forall|a: int, b: int|
                        0 <= a < b < self.hash_to_defs@.len() implies self.hash_to_defs@[a].0
                        != self.hash_to_defs@[b].0 by {
                        if b < entries.len() {
                            assert(entries[a].0 != entries[b].0);
                        } else {
                            assert(entries[a].0 != hash);
                        }
                    }
                }
            }
        }
        None
    }
}

/// The hashes of a batch of parsed results.
pub open spec fn parsed_hashes(ps: Seq<(u32, Vec<CommentDocumentation>)>) -> Seq<u32> {
    Seq::new(ps.len(), |i: int| ps[i].0)
}

/// The subsequence of `hs` whose hashes are not cached yet, in order.
pub open spec fn missing_spec(entries: Seq<(u32, Vec<CommentDocumentation>)>, hs: Seq<u32>) -> Seq<
    u32,
>
    decreases hs.len(),
{
    if hs.len() == 0 {
        Seq::empty()
    } else {
        let rest = missing_spec(entries, hs.drop_last());
        if hash_in(entries, hs.last()) {
            rest
        } else {
            rest.push(hs.last())
        }
    }
}

impl CommentsDatabase {
    /// The content hashes among `hashes` that are not cached yet: exactly the
    /// files that must be parsed again.
    pub fn missing_hashes(&self, hashes: &Vec<u32>) -> (r: Vec<u32>)
        ensures
            r@ == missing_spec(self.hash_to_defs@, hashes@),
    {
        let mut r: Vec<u32> = Vec::new();
        let mut i: usize = 0;
        while i < hashes.len()
            invariant
                i <= hashes@.len(),
                r@ == missing_spec(self.hash_to_defs@, hashes@.take(i as int)),
            decreases hashes@.len() - i,
        {
            proof {
                assert(hashes@.take(i + 1).drop_last() =~= hashes@.take(i as int));
                assert(hashes@.take(i + 1).last() == hashes@[i as int]);
            }
            if !self.is_in_cache(hashes[i]) {
                r.push(hashes[i]);
            }
            i += 1;
        }
        proof {
            assert(hashes@.take(hashes@.len() as int) =~= hashes@);
        }
        r
    }

    /// Merges a batch of freshly parsed results into the cache; reports
    /// whether anything was merged. A batch of all-new, pairwise distinct
    /// hashes is appended in order; a hash that is cached already has its
    /// entry replaced in place; every other entry is left untouched.
    pub fn apply_parsed(&mut self, parsed: Vec<(u32, Vec<CommentDocumentation>)>) -> (changed:
        bool)
        ensures
            changed == (parsed@.len() > 0),
            old(self).wf() ==> final(self).wf(),
            forall|i: int|
                0 <= i < old(self).hash_to_defs@.len() && !hash_in(
                    parsed@,
                    #[trigger] old(self).hash_to_defs@[i].0,
                ) ==> final(self).hash_to_defs@[i] == old(self).hash_to_defs@[i],
            final(self).hash_to_defs@.len() >= old(self).hash_to_defs@.len(),
            forall|h: u32|
                #[trigger] hash_in(final(self).hash_to_defs@, h) <==> hash_in(
                    old(self).hash_to_defs@,
                    h,
                ) || hash_in(parsed@, h),
            (unique_hashes(parsed@) && (forall|k: int|
                0 <= k < parsed@.len() ==> !hash_in(
                    old(self).hash_to_defs@,
                    #[trigger] parsed@[k].0,
                ))) ==> final(self).hash_to_defs@ == old(self).hash_to_defs@ + parsed@,
    {
        let ghost entries0 = self.hash_to_defs@;
        let ghost orig = parsed@;
        let changed = parsed.len() > 0;
        let total = parsed.len();
        let mut parsed = parsed;
        let mut k: usize = 0;
        while parsed.len() > 0
            invariant
                entries0 == old(self).hash_to_defs@,
                orig.len() == total,
                parsed@ == orig.skip(k as int),
                0 <= k <= orig.len(),
                unique_hashes(entries0) ==> unique_hashes(self.hash_to_defs@),
                forall|i: int|
                    0 <= i < entries0.len() && !hash_in(
                        orig.take(k as int),
                        #[trigger] entries0[i].0,
                    ) ==> self.hash_to_defs@[i] == entries0[i],
                self.hash_to_defs@.len() >= entries0.len(),
                forall|h: u32|
                    #[trigger] hash_in(self.hash_to_defs@, h) <==> hash_in(entries0, h) || hash_in(
                        orig.take(k as int),
                        h,
                    ),
                (unique_hashes(orig) && (forall|t: int|
                    0 <= t < orig.len() ==> !hash_in(entries0, #[trigger] orig[t].0)))
                    ==> self.hash_to_defs@ == entries0 + orig.take(k as int),
            decreases parsed@.len(),
        {
            let ghost pre = self.hash_to_defs@;
            let pair = parsed.remove(0);
            proof {
                assert(pair == orig[k as int]);
                assert(parsed@ =~= orig.skip(k + 1));
                assert(orig.take(k + 1).drop_last() =~= orig.take(k as int));
                assert(orig.take(k + 1).last() == orig[k as int]);
            }
            let ghost h = pair.0;
            let ghost dv = pair.1;
            self.add_to_cache(pair.0, pair.1);
            proof {
                let cur = self.hash_to_defs@;
                assert forall|hh: u32| #[trigger]
                    hash_in(cur, hh) <==> hash_in(entries0, hh) || hash_in(
                        orig.take(k + 1),
                        hh,
                    ) by {
                    lemma_apply_step_domain(pre, cur, entries0, orig, k as int, h, dv, hh);
                }
                if !hash_in(pre, h) {
                    assert(cur == pre.push((h, dv)));
                    if unique_hashes(orig) && (forall|t: int|
                        0 <= t < orig.len() ==> !hash_in(entries0, #[trigger] orig[t].0)) {
                        assert(cur =~= entries0 + orig.take(k + 1));
                    }
                    assert forall|i: int|
                        0 <= i < entries0.len() && !hash_in(
                            orig.take(k + 1),
                            #[trigger] entries0[i].0,
                        ) implies cur[i] == entries0[i] by {
                        assert(!hash_in(orig.take(k as int), entries0[i].0));
                        assert(pre[i] == entries0[i]);
                    }
                } else {
                    let i0 = choose|i0: int|
                        0 <= i0 < pre.len() && pre[i0].0 == h && cur == pre.update(i0, (h, dv));
                    if unique_hashes(orig) && (forall|t: int|
                        0 <= t < orig.len() ==> !hash_in(entries0, #[trigger] orig[t].0)) {
                        assert(!hash_in(entries0, h));
                        assert(!hash_in(orig.take(k as int), h)) by {
                            if hash_in(orig.take(k as int), h) {
                                let t = choose|t: int|
                                    0 <= t < k && #[trigger] orig.take(k as int)[t].0 == h;
                                assert(orig[t].0 == h && orig[k as int].0 == h);
                            }
                        }
                        assert(!hash_in(pre, h));
                        assert(false);
                    }
                    assert forall|i: int|
                        0 <= i < entries0.len() && !hash_in(
                            orig.take(k + 1),
                            #[trigger] entries0[i].0,
                        ) implies cur[i] == entries0[i] by {
                        assert(!hash_in(orig.take(k as int), entries0[i].0));
                        assert(pre[i] == entries0[i]);
                        assert(entries0[i].0 != h) by {
                            assert(orig.take(k + 1).last().0 == h);
                        }
                        if i0 == i {
                            assert(pre[i].0 == h);
                            assert(false);
                        }
                    }
                }
            }
            k += 1;
        }
        proof {
            assert(orig.take(orig.len() as int) =~= orig);
        }
        changed
    }
}

/// One merge step only adds the merged hash to the cached domain.
proof fn lemma_apply_step_domain(
    pre: Seq<(u32, Vec<CommentDocumentation>)>,
    cur: Seq<(u32, Vec<CommentDocumentation>)>,
    entries0: Seq<(u32, Vec<CommentDocumentation>)>,
    orig: Seq<(u32, Vec<CommentDocumentation>)>,
    k: int,
    h: u32,
    dv: Vec<CommentDocumentation>,
    hh: u32,
)
    requires
        0 <= k < orig.len(),
        orig[k].0 == h,
        forall|g: u32|
            #[trigger] hash_in(pre, g) <==> hash_in(entries0, g) || hash_in(orig.take(k), g),
        if hash_in(pre, h) {
            exists|i: int| 0 <= i < pre.len() && pre[i].0 == h && cur == pre.update(i, (h, dv))
        } else {
            cur == pre.push((h, dv))
        },
    ensures
        hash_in(cur, hh) <==> hash_in(entries0, hh) || hash_in(orig.take(k + 1), hh),
{
    assert(orig.take(k + 1).drop_last() =~= orig.take(k));
    assert(orig.take(k + 1).last() == orig[k]);
    if hash_in(pre, h) {
        let i = choose|i: int|
            0 <= i < pre.len() && pre[i].0 == h && cur == pre.update(i, (h, dv));
        if hash_in(cur, hh) {
            let j = choose|j: int| 0 <= j < cur.len() && #[trigger] cur[j].0 == hh;
            if j == i {
                assert(hash_in(orig.take(k + 1), hh)) by {
                    assert(orig.take(k + 1)[k] == orig[k]);
                }
            } else {
                assert(pre[j].0 == hh);
                assert(hash_in(pre, hh));
            }
        }
        if hash_in(entries0, hh) || hash_in(orig.take(k + 1), hh) {
            if hh == h {
                assert(cur[i].0 == h);
                assert(hash_in(cur, hh));
            } else {
                if hash_in(orig.take(k + 1), hh) {
                    let t = choose|t: int|
                        0 <= t < k + 1 && #[trigger] orig.take(k + 1)[t].0 == hh;
                    assert(t < k);
                    assert(orig.take(k)[t].0 == hh);
                    assert(hash_in(orig.take(k), hh));
                }
                assert(hash_in(pre, hh));
                let j = choose|j: int| 0 <= j < pre.len() && #[trigger] pre[j].0 == hh;
                assert(j != i);
                assert(cur[j].0 == hh);
                assert(hash_in(cur, hh));
            }
        }
    } else {
        if hash_in(cur, hh) {
            let j = choose|j: int| 0 <= j < cur.len() && #[trigger] cur[j].0 == hh;
            if j == pre.len() {
                assert(hh == h);
                assert(orig.take(k + 1)[k].0 == hh);
                assert(hash_in(orig.take(k + 1), hh));
            } else {
                assert(pre[j].0 == hh);
                assert(hash_in(pre, hh));
            }
        }
        if hash_in(entries0, hh) || hash_in(orig.take(k + 1), hh) {
            if hh == h {
                assert(cur[pre.len() as int].0 == h);
                assert(hash_in(cur, hh));
            } else {
                if hash_in(orig.take(k + 1), hh) {
                    let t = choose|t: int|
                        0 <= t < k + 1 && #[trigger] orig.take(k + 1)[t].0 == hh;
                    assert(t < k);
                    assert(orig.take(k)[t].0 == hh);
                    assert(hash_in(orig.take(k), hh));
                }
                assert(hash_in(pre, hh));
                let j = choose|j: int| 0 <= j < pre.len() && #[trigger] pre[j].0 == hh;
                assert(cur[j].0 == hh);
                assert(hash_in(cur, hh));
            }
        }
    }
}

/// The models of the cached entries: each hash with its definitions' models.
pub open spec fn entries_view(entries: Seq<(u32, Vec<CommentDocumentation>)>) -> Seq<
    (u32, Seq<CommentDocumentationView>),
> {
    Seq::new(entries.len(), |i: int| (entries[i].0, entries[i].1.deep_view()))
}

impl View for CommentsDatabase {
    type V = Seq<(u32, Seq<CommentDocumentationView>)>;

    open spec fn view(&self) -> Seq<(u32, Seq<CommentDocumentationView>)> {
        entries_view(self.hash_to_defs@)
    }
}

/// No two entries of the model share a content hash.
pub open spec fn unique_hashes_view(v: Seq<(u32, Seq<CommentDocumentationView>)>) -> bool {
    forall|i: int, j: int| 0 <= i < j < v.len() ==> v[i].0 != v[j].0
}

/// One definition as bytes: key, origin path, comments.
pub open spec fn enc_comment_doc(d: CommentDocumentationView) -> Seq<u8> {
    enc_str(d.key) + (enc_opt_str(d.path) + enc_str_list(d.comments))
}

/// Definitions, back to back.
pub open spec fn enc_docs(l: Seq<CommentDocumentationView>) -> Seq<u8>
    decreases l.len(),
{
    if l.len() == 0 {
        Seq::empty()
    } else {
        enc_comment_doc(l.first()) + enc_docs(l.drop_first())
    }
}

/// One cached entry as bytes: the hash, then its count-prefixed definitions.
pub open spec fn enc_centry(h: u32, defs: Seq<CommentDocumentationView>) -> Seq<u8> {
    enc_u32(h) + (enc_u64(defs.len() as u64) + enc_docs(defs))
}

/// Cached entries, back to back.
pub open spec fn enc_centries(l: Seq<(u32, Seq<CommentDocumentationView>)>) -> Seq<u8>
    decreases l.len(),
{
    if l.len() == 0 {
        Seq::empty()
    } else {
        enc_centry(l.first().0, l.first().1) + enc_centries(l.drop_first())
    }
}

/// The definition's strings are short enough for their length prefixes.
pub open spec fn comment_doc_bounded(d: CommentDocumentationView) -> bool {
    str_bounded(d.key) && opt_str_bounded(d.path) && strs_bounded(d.comments)
}

/// Every definition of the list is bounded, and so is their number.
pub open spec fn docs_bounded(l: Seq<CommentDocumentationView>) -> bool {
    l.len() <= u64::MAX && forall|i: int| 0 <= i < l.len() ==> comment_doc_bounded(#[trigger] l[i])
}

/// Every entry of the model is bounded, and so is their number.
pub open spec fn centries_bounded(v: Seq<(u32, Seq<CommentDocumentationView>)>) -> bool {
    v.len() <= u64::MAX && forall|i: int| 0 <= i < v.len() ==> docs_bounded(#[trigger] v[i].1)
}

/// Reads one definition.
pub open spec fn dec_comment_doc(b: Seq<u8>, pos: int) -> Option<(CommentDocumentationView, int)> {
    match dec_str(b, pos) {
        Some((key, p1)) => match dec_opt_str(b, p1) {
            Some((path, p2)) => match dec_str_list(b, p2) {
                Some((comments, p3)) => Some(
                    (CommentDocumentationView { key, path, comments }, p3),
                ),
                None => None,
            },
            None => None,
        },
        None => None,
    }
}

/// Reads `count` definitions, back to back.
pub open spec fn dec_docs(b: Seq<u8>, pos: int, count: int) -> Option<
    (Seq<CommentDocumentationView>, int),
>
    decreases count,
    when count >= 0
{
    if count == 0 {
        Some((Seq::empty(), pos))
    } else {
        match dec_comment_doc(b, pos) {
            Some((d, p)) => match dec_docs(b, p, count - 1) {
                Some((rest, p2)) => Some((seq![d] + rest, p2)),
                None => None,
            },
            None => None,
        }
    }
}

/// Reads one cached entry.
pub open spec fn dec_centry(b: Seq<u8>, pos: int) -> Option<
    ((u32, Seq<CommentDocumentationView>), int),
> {
    match dec_u32(b, pos) {
        Some((h, p1)) => match dec_u64(b, p1) {
            Some((n, p2)) => match dec_docs(b, p2, n as int) {
                Some((defs, p3)) => Some(((h, defs), p3)),
                None => None,
            },
            None => None,
        },
        None => None,
    }
}

/// Reads `count` cached entries, back to back.
pub open spec fn dec_centries(b: Seq<u8>, pos: int, count: int) -> Option<
    (Seq<(u32, Seq<CommentDocumentationView>)>, int),
>
    decreases count,
    when count >= 0
{
    if count == 0 {
        Some((Seq::empty(), pos))
    } else {
        match dec_centry(b, pos) {
            Some((e, p)) => match dec_centries(b, p, count - 1) {
                Some((rest, p2)) => Some((seq![e] + rest, p2)),
                None => None,
            },
            None => None,
        }
    }
}

/// An encoded definition reads back as itself.
pub proof fn lemma_dec_comment_doc_at(b: Seq<u8>, pos: int, d: CommentDocumentationView)
    requires
        0 <= pos,
        pos + enc_comment_doc(d).len() <= b.len(),
        b.subrange(pos, pos + enc_comment_doc(d).len()) == enc_comment_doc(d),
        comment_doc_bounded(d),
    ensures
        dec_comment_doc(b, pos) == Some((d, pos + enc_comment_doc(d).len())),
{
    let x1 = enc_str(d.key);
    let x2 = enc_opt_str(d.path);
    let x3 = enc_str_list(d.comments);
    lemma_split_concat_at(b, pos, x1, x2 + x3);
    lemma_dec_str_at(b, pos, d.key);
    let p1 = pos + x1.len();
    lemma_split_concat_at(b, p1, x2, x3);
    lemma_dec_opt_str_at(b, p1, d.path);
    let p2 = p1 + x2.len();
    lemma_dec_str_list_at(b, p2, d.comments);
    assert((CommentDocumentationView { key: d.key, path: d.path, comments: d.comments }) =~= d);
}

/// Encoded definitions read back as themselves, one after the other.
#[verifier::rlimit(100)]
pub proof fn lemma_dec_docs_at(b: Seq<u8>, pos: int, l: Seq<CommentDocumentationView>)
    requires
        0 <= pos,
        pos + enc_docs(l).len() <= b.len(),
        b.subrange(pos, pos + enc_docs(l).len()) == enc_docs(l),
        forall|i: int| 0 <= i < l.len() ==> comment_doc_bounded(#[trigger] l[i]),
    ensures
        dec_docs(b, pos, l.len() as int) == Some((l, pos + enc_docs(l).len())),
    decreases l.len(),
{
    if l.len() == 0 {
        assert(l =~= Seq::<CommentDocumentationView>::empty());
    } else {
        let d = l.first();
        let rest = l.drop_first();
        assert(l[0] == d);
        lemma_split_concat_at(b, pos, enc_comment_doc(d), enc_docs(rest));
        lemma_dec_comment_doc_at(b, pos, d);
        let p = pos + enc_comment_doc(d).len();
        assert(forall|i: int| 0 <= i < rest.len() ==> rest[i] == l[i + 1]);
        lemma_dec_docs_at(b, p, rest);
        assert(seq![d] + rest =~= l);
    }
}

/// An encoded cached entry reads back as itself.
pub proof fn lemma_dec_centry_at(b: Seq<u8>, pos: int, h: u32, defs: Seq<CommentDocumentationView>)
    requires
        0 <= pos,
        pos + enc_centry(h, defs).len() <= b.len(),
        b.subrange(pos, pos + enc_centry(h, defs).len()) == enc_centry(h, defs),
        docs_bounded(defs),
    ensures
        dec_centry(b, pos) == Some(((h, defs), pos + enc_centry(h, defs).len())),
{
    let x1 = enc_u32(h);
    let x2 = enc_u64(defs.len() as u64);
    let x3 = enc_docs(defs);
    lemma_split_concat_at(b, pos, x1, x2 + x3);
    lemma_dec_u32_at(b, pos, h);
    let p1 = pos + 4;
    lemma_split_concat_at(b, p1, x2, x3);
    lemma_dec_u64_at(b, p1, defs.len() as u64);
    let p2 = p1 + 8;
    lemma_dec_docs_at(b, p2, defs);
}

/// Encoded cached entries read back as themselves, one after the other.
#[verifier::rlimit(100)]
pub proof fn lemma_dec_centries_at(
    b: Seq<u8>,
    pos: int,
    l: Seq<(u32, Seq<CommentDocumentationView>)>,
)
    requires
        0 <= pos,
        pos + enc_centries(l).len() <= b.len(),
        b.subrange(pos, pos + enc_centries(l).len()) == enc_centries(l),
        forall|i: int| 0 <= i < l.len() ==> docs_bounded(#[trigger] l[i].1),
    ensures
        dec_centries(b, pos, l.len() as int) == Some((l, pos + enc_centries(l).len())),
    decreases l.len(),
{
    if l.len() == 0 {
        assert(l =~= Seq::<(u32, Seq<CommentDocumentationView>)>::empty());
    } else {
        let e = l.first();
        let rest = l.drop_first();
        assert(l[0] == e);
        lemma_split_concat_at(b, pos, enc_centry(e.0, e.1), enc_centries(rest));
        lemma_dec_centry_at(b, pos, e.0, e.1);
        let p = pos + enc_centry(e.0, e.1).len();
        assert(forall|i: int| 0 <= i < rest.len() ==> rest[i] == l[i + 1]);
        lemma_dec_centries_at(b, p, rest);
        assert((e.0, e.1) == e);
        assert(seq![e] + rest =~= l);
    }
}

/// Appending one definition extends the encoding at the end.
pub proof fn lemma_enc_docs_snoc(l: Seq<CommentDocumentationView>, x: CommentDocumentationView)
    ensures
        enc_docs(l.push(x)) == enc_docs(l) + enc_comment_doc(x),
    decreases l.len(),
{
    if l.len() == 0 {
        assert(l.push(x).first() == x);
        assert(l.push(x).drop_first() =~= Seq::<CommentDocumentationView>::empty());
        assert(enc_docs(l.push(x)) == enc_comment_doc(x) + enc_docs(
            (l.push(x)).drop_first(),
        ));
        assert(enc_docs((l.push(x)).drop_first()) == Seq::<u8>::empty());
        assert(enc_docs(l) == Seq::<u8>::empty());
        assert(enc_comment_doc(x) + Seq::<u8>::empty() =~= Seq::<u8>::empty() + enc_comment_doc(
            x,
        ));
    } else {
        let f = enc_comment_doc(l.first());
        assert((l.push(x)).first() == l.first());
        assert((l.push(x)).drop_first() =~= l.drop_first().push(x));
        lemma_enc_docs_snoc(l.drop_first(), x);
        assert(enc_docs(l.push(x)) == f + enc_docs((l.push(x)).drop_first()));
        assert(enc_docs(l) == f + enc_docs(l.drop_first()));
        assert(f + (enc_docs(l.drop_first()) + enc_comment_doc(x)) =~= (f + enc_docs(
            l.drop_first(),
        )) + enc_comment_doc(x));
    }
}

/// Appending one entry extends the encoding at the end.
pub proof fn lemma_enc_centries_snoc(
    l: Seq<(u32, Seq<CommentDocumentationView>)>,
    x: (u32, Seq<CommentDocumentationView>),
)
    ensures
        enc_centries(l.push(x)) == enc_centries(l) + enc_centry(x.0, x.1),
    decreases l.len(),
{
    if l.len() == 0 {
        assert(l.push(x).first() == x);
        assert(l.push(x).drop_first() =~= Seq::<(u32, Seq<CommentDocumentationView>)>::empty());
        assert(enc_centries(l.push(x)) == enc_centry(x.0, x.1) + enc_centries(
            (l.push(x)).drop_first(),
        ));
        assert(enc_centries((l.push(x)).drop_first()) == Seq::<u8>::empty());
        assert(enc_centries(l) == Seq::<u8>::empty());
        assert(enc_centry(x.0, x.1) + Seq::<u8>::empty() =~= Seq::<u8>::empty() + enc_centry(
            x.0,
            x.1,
        ));
    } else {
        let f = enc_centry(l.first().0, l.first().1);
        assert((l.push(x)).first() == l.first());
        assert((l.push(x)).drop_first() =~= l.drop_first().push(x));
        lemma_enc_centries_snoc(l.drop_first(), x);
        assert(enc_centries(l.push(x)) == f + enc_centries((l.push(x)).drop_first()));
        assert(enc_centries(l) == f + enc_centries(l.drop_first()));
        assert(f + (enc_centries(l.drop_first()) + enc_centry(x.0, x.1)) =~= (f + enc_centries(
            l.drop_first(),
        )) + enc_centry(x.0, x.1));
    }
}

/// Appends one definition to a cache blob.
fn write_comment_doc(out: &mut Vec<u8>, d: &CommentDocumentation)
    ensures
        final(out)@ == old(out)@ + enc_comment_doc(d@),
{
    write_str(out, d.key.as_str());
    write_opt_str(out, &d.path);
    write_str_list(out, &d.comments);
    assert(out@ =~= old(out)@ + enc_comment_doc(d@));
}

/// Reads one definition from a cache blob.
fn read_comment_doc(b: &[u8], pos: usize) -> (r: Option<(CommentDocumentation, usize)>)
    ensures
        match r {
            Some((d, p)) => dec_comment_doc(b@, pos as int) == Some((d@, p as int)),
            None => dec_comment_doc(b@, pos as int) is None,
        },
{
    match read_str(b, pos) {
        Some((key, p1)) => match read_opt_str(b, p1) {
            Some((path, p2)) => match read_str_list(b, p2) {
                Some((comments, p3)) => {
                    let ghost kv = key@;
                    let ghost pthv = path.deep_view();
                    let ghost csv = comments.deep_view();
                    let d = CommentDocumentation { key, path, comments };
                    proof {
                        assert(d@ =~= (CommentDocumentationView {
                            key: kv,
                            path: pthv,
                            comments: csv,
                        }));
                        assert(dec_comment_doc(b@, pos as int) == Some((d@, p3 as int)));
                    }
                    Some((d, p3))
                },
                None => None,
            },
            None => None,
        },
        None => None,
    }
}

impl Cache for CommentsDatabase {
    open spec fn cache_wf(&self) -> bool {
        self.wf()
    }

    open spec fn cache_bytes(&self) -> Seq<u8> {
        enc_u64(self@.len() as u64) + enc_centries(self@)
    }

    open spec fn decode_spec(bytes: Seq<u8>) -> Option<Seq<(u32, Seq<CommentDocumentationView>)>> {
        match dec_u64(bytes, 0) {
            Some((n, p0)) => match dec_centries(bytes, p0, n as int) {
                Some((v, p)) => if p == bytes.len() && unique_hashes_view(v) {
                    Some(v)
                } else {
                    None
                },
                None => None,
            },
            None => None,
        }
    }

    fn to_bytes(&self) -> (r: Vec<u8>)
        ensures
            r@ == self.cache_bytes(),
    {
        let mut out: Vec<u8> = Vec::new();
        write_u64(&mut out, self.hash_to_defs.len() as u64);
        let ghost mid = out@;
        let ghost ev = self@;
        let mut i: usize = 0;
        proof {
            assert(ev.take(0) =~= Seq::<(u32, Seq<CommentDocumentationView>)>::empty());
            assert(mid + enc_centries(ev.take(0)) =~= mid);
        }
        while i < self.hash_to_defs.len()
            invariant
                ev == self@,
                ev.len() == self.hash_to_defs@.len(),
                i <= ev.len(),
                out@ == mid + enc_centries(ev.take(i as int)),
            decreases ev.len() - i,
        {
            write_u32(&mut out, self.hash_to_defs[i].0);
            let defs: &Vec<CommentDocumentation> = &self.hash_to_defs[i].1;
            write_u64(&mut out, defs.len() as u64);
            let ghost dmid = out@;
            let ghost dv = defs.deep_view();
            let mut j: usize = 0;
            proof {
                assert(dv.take(0) =~= Seq::<CommentDocumentationView>::empty());
                assert(dmid + enc_docs(dv.take(0)) =~= dmid);
            }
            while j < defs.len()
                invariant
                    dv == defs.deep_view(),
                    dv.len() == defs@.len(),
                    j <= dv.len(),
                    out@ == dmid + enc_docs(dv.take(j as int)),
                decreases dv.len() - j,
            {
                write_comment_doc(&mut out, &defs[j]);
                proof {
                    assert(dv.take(j + 1) =~= dv.take(j as int).push(dv[j as int]));
                    lemma_enc_docs_snoc(dv.take(j as int), dv[j as int]);
                    assert(dv[j as int] == defs@[j as int]@);
                    assert(out@ =~= dmid + enc_docs(dv.take(j + 1)));
                }
                j += 1;
            }
            proof {
                assert(dv.take(dv.len() as int) =~= dv);
                assert(ev.take(i + 1) =~= ev.take(i as int).push(ev[i as int]));
                lemma_enc_centries_snoc(ev.take(i as int), ev[i as int]);
                assert(ev[i as int] == (self.hash_to_defs@[i as int].0, dv));
                assert(out@ =~= mid + enc_centries(ev.take(i + 1)));
            }
            i += 1;
        }
        proof {
            assert(ev.take(ev.len() as int) =~= ev);
            assert(out@ =~= self.cache_bytes());
        }
        out
    }

    fn load(content: &[u8]) -> (r: Result<Self, Errors>)
        ensures
            match Self::decode_spec(content@) {
                Some(v) => r matches Ok(db) && db@ == v && db.cache_wf(),
                None => r is Err,
            },
    {
        let (n, p0) = match read_u64(content, 0) {
            Some(x) => x,
            None => {
                return Err(
                    Errors::Deserialize {
                        message: String::from_str("the comment cache is malformed"),
                    },
                );
            },
        };
        let mut entries: Vec<(u32, Vec<CommentDocumentation>)> = Vec::new();
        let mut p = p0;
        let mut k: u64 = 0;
        proof {
            assert(entries_view(entries@) =~= Seq::<(u32, Seq<CommentDocumentationView>)>::empty());
        }
        while k < n
            invariant
                k <= n,
                dec_u64(content@, 0) == Some((n, p0 as int)),
                entries_view(entries@).len() == entries@.len(),
                match dec_centries(content@, p as int, (n - k) as int) {
                    Some((rest, pend)) => dec_centries(content@, p0 as int, n as int) == Some(
                        (entries_view(entries@) + rest, pend),
                    ),
                    None => dec_centries(content@, p0 as int, n as int) is None,
                },
            decreases n - k,
        {
            let e = match read_centry(content, p) {
                Some(x) => x,
                None => {
                    proof {
                        assert(dec_centries(content@, p as int, (n - k) as int) is None);
                    }
                    return Err(
                        Errors::Deserialize {
                            message: String::from_str("the comment cache is malformed"),
                        },
                    );
                },
            };
            let (pair, p2) = e;
            proof {
                lemma_dec_centries_step(
                    content@,
                    p as int,
                    (n - k) as int,
                    (pair.0, pair.1.deep_view()),
                    p2 as int,
                );
            }
            let ghost pre = entries_view(entries@);
            let ghost pv = (pair.0, pair.1.deep_view());
            entries.push(pair);
            proof {
                assert(entries_view(entries@) =~= pre.push(pv));
                match dec_centries(content@, p2 as int, (n - k - 1) as int) {
                    Some((rest, pend)) => {
                        assert(pre.push(pv) + rest =~= pre + (seq![pv] + rest));
                    },
                    None => {},
                }
            }
            p = p2;
            k += 1;
        }
        if p != content.len() {
            proof {
                assert(dec_centries(content@, p as int, 0) == Some(
                    (Seq::<(u32, Seq<CommentDocumentationView>)>::empty(), p as int),
                ));
                assert(entries_view(entries@) + Seq::<(u32, Seq<CommentDocumentationView>)>::empty()
                    =~= entries_view(entries@));
            }
            return Err(
                Errors::Deserialize {
                    message: String::from_str("the comment cache has bytes left over"),
                },
            );
        }
        proof {
            assert(dec_centries(content@, p as int, 0) == Some(
                (Seq::<(u32, Seq<CommentDocumentationView>)>::empty(), p as int),
            ));
            assert(entries_view(entries@) + Seq::<(u32, Seq<CommentDocumentationView>)>::empty()
                =~= entries_view(entries@));
        }
        if !hashes_unique_check(&entries) {
            proof {
                let ev2 = entries_view(entries@);
                assert(exists|a: int, c: int|
                    0 <= a < c < entries@.len() && #[trigger] entries@[a].0 == #[trigger] entries@[
                    c].0);
                let (a, c) = choose|a: int, c: int|
                    0 <= a < c < entries@.len() && #[trigger] entries@[a].0 == #[trigger] entries@[
                    c].0;
                assert(ev2[a].0 == entries@[a].0 && ev2[c].0 == entries@[c].0);
                assert(!unique_hashes_view(ev2));
            }
            return Err(
                Errors::Deserialize {
                    message: String::from_str("the comment cache repeats a content hash"),
                },
            );
        }
        let db = CommentsDatabase { hash_to_defs: entries };
        proof {
            assert(unique_hashes_view(db@)) by {
                assert(forall|i: int|
                    0 <= i < db.hash_to_defs@.len() ==> db@[i].0 == #[trigger] db.hash_to_defs@[
                    i].0);
            }
        }
        Ok(db)
    }
}

/// Reads one cached entry from a cache blob.
fn read_centry(b: &[u8], pos: usize) -> (r: Option<((u32, Vec<CommentDocumentation>), usize)>)
    ensures
        match r {
            Some((e, p)) => dec_centry(b@, pos as int) == Some(((e.0, e.1.deep_view()), p as int)),
            None => dec_centry(b@, pos as int) is None,
        },
{
    let (h, p1) = match read_u32(b, pos) {
        Some(x) => x,
        None => {
            return None;
        },
    };
    let (n, p2) = match read_u64(b, p1) {
        Some(x) => x,
        None => {
            return None;
        },
    };
    let mut defs: Vec<CommentDocumentation> = Vec::new();
    let mut p = p2;
    let mut k: u64 = 0;
    proof {
        assert(defs.deep_view() =~= Seq::<CommentDocumentationView>::empty());
    }
    while k < n
        invariant
            k <= n,
            dec_u32(b@, pos as int) == Some((h, p1 as int)),
            dec_u64(b@, p1 as int) == Some((n, p2 as int)),
            match dec_docs(b@, p as int, (n - k) as int) {
                Some((rest, pend)) => dec_docs(b@, p2 as int, n as int) == Some(
                    (defs.deep_view() + rest, pend),
                ),
                None => dec_docs(b@, p2 as int, n as int) is None,
            },
        decreases n - k,
    {
        match read_comment_doc(b, p) {
            Some((d, pn)) => {
                proof {
                    lemma_dec_docs_step(b@, p as int, (n - k) as int, d@, pn as int);
                }
                let ghost pre = defs.deep_view();
                let ghost dv = d@;
                defs.push(d);
                proof {
                    assert(defs.deep_view() =~= pre.push(dv));
                    match dec_docs(b@, pn as int, (n - k - 1) as int) {
                        Some((rest, pend)) => {
                            assert(pre.push(dv) + rest =~= pre + (seq![dv] + rest));
                        },
                        None => {},
                    }
                }
                p = pn;
            },
            None => {
                proof {
                    assert(dec_docs(b@, p as int, (n - k) as int) is None);
                }
                return None;
            },
        }
        k += 1;
    }
    proof {
        assert(dec_docs(b@, p as int, 0) == Some((Seq::<CommentDocumentationView>::empty(), (
        p as int))));
        assert(defs.deep_view() + Seq::<CommentDocumentationView>::empty() =~= defs.deep_view());
    }
    Some(((h, defs), p))
}

/// One decoded definition extends the sequence read so far.
proof fn lemma_dec_docs_step(
    b: Seq<u8>,
    pos: int,
    count: int,
    d: CommentDocumentationView,
    p2: int,
)
    requires
        count > 0,
        dec_comment_doc(b, pos) == Some((d, p2)),
    ensures
        match dec_docs(b, p2, count - 1) {
            Some((rest, pend)) => dec_docs(b, pos, count) == Some((seq![d] + rest, pend)),
            None => dec_docs(b, pos, count) is None,
        },
{
}

/// One decoded entry extends the sequence read so far.
proof fn lemma_dec_centries_step(
    b: Seq<u8>,
    pos: int,
    count: int,
    e: (u32, Seq<CommentDocumentationView>),
    p2: int,
)
    requires
        count > 0,
        dec_centry(b, pos) == Some((e, p2)),
    ensures
        match dec_centries(b, p2, count - 1) {
            Some((rest, pend)) => dec_centries(b, pos, count) == Some((seq![e] + rest, pend)),
            None => dec_centries(b, pos, count) is None,
        },
{
}

/// Whether no two entries share a content hash.
fn hashes_unique_check(entries: &Vec<(u32, Vec<CommentDocumentation>)>) -> (r: bool)
    ensures
        r == unique_hashes(entries@),
{
    let mut i: usize = 0;
    while i < entries.len()
        invariant
            i <= entries@.len(),
            forall|a: int, c: int| 0 <= a < c < entries@.len() && c < i ==> entries@[a].0
                != entries@[c].0,
        decreases entries@.len() - i,
    {
        let mut j: usize = 0;
        while j < i
            invariant
                j <= i < entries@.len(),
                forall|a: int, c: int| 0 <= a < c < entries@.len() && c < i ==> entries@[a].0
                    != entries@[c].0,
                forall|a: int| 0 <= a < j ==> entries@[a].0 != entries@[i as int].0,
            decreases i - j,
        {
            if entries[j].0 == entries[i].0 {
                assert(!unique_hashes(entries@));
                return false;
            }
            j += 1;
        }
        i += 1;
    }
    true
}

/// Serializing the comment cache and reading the blob back reproduces exactly
/// the hash-to-definitions entries it held.
pub proof fn lemma_comments_cache_round_trip(db: &CommentsDatabase)
    requires
        db.wf(),
        centries_bounded(db@),
    ensures
        CommentsDatabase::decode_spec(db.cache_bytes()) == Some(db@),
{
    let v = db@;
    let b = db.cache_bytes();
    let x1 = enc_u64(v.len() as u64);
    let x2 = enc_centries(v);
    assert(b.subrange(0, b.len() as int) =~= b);
    lemma_split_concat_at(b, 0, x1, x2);
    lemma_dec_u64_at(b, 0, v.len() as u64);
    lemma_dec_centries_at(b, 8, v);
    assert(unique_hashes_view(v)) by {
        assert(forall|i: int|
            0 <= i < db.hash_to_defs@.len() ==> v[i].0 == #[trigger] db.hash_to_defs@[i].0);
    }
}

/// The classification of a tree element, as far as the extractor needs to
/// tell elements apart.
#[derive(Debug, Clone, Copy, PartialEq, Eq, Structural)]
pub enum ElementKind {
    /// A comment token.
    Comment,
    /// An attribute-path node, part of the `name = value;` wrapper.
    AttrPath,
    /// An assignment-operator token, part of the same wrapper.
    Assign,
    /// Whitespace or other trivia.
    Trivia,
    /// An attribute-set node.
    AttrSet,
    /// A function (lambda) node.
    Lambda,
    /// An identifier node or token.
    Ident,
    /// Anything else; a stop for the backward scan.
    Other,
}

/// One element (node or token) of a parsed source file, in preorder, with
/// links to its parent and to its previous sibling or token.
#[derive(Debug, PartialEq, Eq)]
pub struct SyntaxElement {
    pub kind: ElementKind,
    /// The raw text of a comment token or the name of an identifier; empty
    /// where the extractor never reads it.
    pub text: String,
    /// Index of the enclosing element; the root has none.
    pub parent: Option<usize>,
    /// Index of the previous sibling or token; none for a first child.
    pub prev: Option<usize>,
}

/// One `name = value;` binding of an attribute set: the indexes of its key
/// element and of its value element.
#[derive(Debug, PartialEq, Eq)]
pub struct Binding {
    pub key: usize,
    pub value: usize,
}

/// A parsed source file, flattened to an arena: the elements in preorder (so
/// every parent and previous sibling stands before the element that points at
/// it), and the bindings of the attribute sets, in preorder.
#[derive(Debug, PartialEq, Eq)]
pub struct SyntaxTree {
    pub elems: Vec<SyntaxElement>,
    pub bindings: Vec<Binding>,
}

/// Parent and previous-sibling links always point backward, at an element
/// that stands earlier in preorder.
pub open spec fn elems_wf(elems: Seq<SyntaxElement>) -> bool {
    forall|i: int|
        0 <= i < elems.len() ==> {
            &&& ((#[trigger] elems[i]).parent matches Some(p) ==> (p as int) < i)
            &&& (elems[i].prev matches Some(p) ==> (p as int) < i)
        }
}

impl SyntaxTree {
    /// Links point backward and bindings point at elements.
    pub open spec fn wf(&self) -> bool {
        &&& elems_wf(self.elems@)
        &&& forall|b: int|
            0 <= b < self.bindings@.len() ==> {
                &&& (#[trigger] self.bindings@[b]).key < self.elems@.len()
                &&& self.bindings@[b].value < self.elems@.len()
            }
    }

    /// Checks the arena's validity at run time.
    pub fn wf_check(&self) -> (r: bool)
        ensures
            r == self.wf(),
    {
        let mut i: usize = 0;
        while i < self.elems.len()
            invariant
                i <= self.elems@.len(),
                forall|k: int|
                    0 <= k < i ==> {
                        &&& ((#[trigger] self.elems@[k]).parent matches Some(p) ==> (p as int) < k)
                        &&& (self.elems@[k].prev matches Some(p) ==> (p as int) < k)
                    },
            decreases self.elems@.len() - i,
        {
            let ok_parent = match self.elems[i].parent {
                Some(p) => p < i,
                None => true,
            };
            let ok_prev = match self.elems[i].prev {
                Some(p) => p < i,
                None => true,
            };
            if !ok_parent || !ok_prev {
                assert(!elems_wf(self.elems@));
                return false;
            }
            i += 1;
        }
        let mut b: usize = 0;
        while b < self.bindings.len()
            invariant
                elems_wf(self.elems@),
                b <= self.bindings@.len(),
                forall|k: int|
                    0 <= k < b ==> {
                        &&& (#[trigger] self.bindings@[k]).key < self.elems@.len()
                        &&& self.bindings@[k].value < self.elems@.len()
                    },
            decreases self.bindings@.len() - b,
        {
            if self.bindings[b].key >= self.elems.len() || self.bindings[b].value
                >= self.elems.len() {
                return false;
            }
            b += 1;
        }
        true
    }
}

/// The position the backward scan visits next from `cur`: the previous
/// sibling or token of `cur`, or of the nearest ancestor that has one; none
/// once the scan reaches the root.
pub open spec fn prev_position(elems: Seq<SyntaxElement>, cur: int) -> Option<int>
    decreases cur,
    when 0 <= cur < elems.len() && elems_wf(elems)
{
    match elems[cur].prev {
        Some(p) => Some(p as int),
        None => match elems[cur].parent {
            Some(q) => prev_position(elems, q as int),
            None => None,
        },
    }
}

/// The scan position stays in range and strictly decreases.
pub proof fn lemma_prev_position_range(elems: Seq<SyntaxElement>, cur: int)
    requires
        0 <= cur < elems.len(),
        elems_wf(elems),
    ensures
        prev_position(elems, cur) matches Some(p) ==> 0 <= p < cur,
    decreases cur,
{
    match elems[cur].prev {
        Some(p) => {},
        None => match elems[cur].parent {
            Some(q) => {
                lemma_prev_position_range(elems, q as int);
            },
            None => {},
        },
    }
}

/// The comments the backward scan attaches to the element at `cur`, in source
/// order: a comment is recorded and the scan goes on; an attribute-path, an
/// assignment operator and trivia are transparent; anything else ends the
/// scan. Reaching the root yields nothing at all.
pub open spec fn collect_comments(elems: Seq<SyntaxElement>, cur: int) -> Option<Seq<Seq<char>>>
    decreases cur,
    when 0 <= cur < elems.len() && elems_wf(elems)
    via collect_comments_decreases
{
    match prev_position(elems, cur) {
        None => None,
        Some(p) => match elems[p].kind {
            ElementKind::Comment => match collect_comments(elems, p) {
                None => None,
                Some(rest) => Some(rest.push(elems[p].text@)),
            },
            ElementKind::AttrPath => collect_comments(elems, p),
            ElementKind::Assign => collect_comments(elems, p),
            ElementKind::Trivia => collect_comments(elems, p),
            _ => Some(Seq::empty()),
        },
    }
}

#[via_fn]
proof fn collect_comments_decreases(elems: Seq<SyntaxElement>, cur: int) {
    lemma_prev_position_range(elems, cur);
}

/// Finds the scan position that follows `start`.
fn prev_position_exec(tree: &SyntaxTree, start: usize) -> (r: Option<usize>)
    requires
        tree.wf(),
        start < tree.elems@.len(),
    ensures
        match r {
            Some(p) => prev_position(tree.elems@, start as int) == Some(p as int) && p < start,
            None => prev_position(tree.elems@, start as int) is None,
        },
{
    let mut x = start;
    loop
        invariant
            tree.wf(),
            x < tree.elems@.len(),
            x <= start,
            prev_position(tree.elems@, start as int) == prev_position(tree.elems@, x as int),
        decreases x,
    {
        match tree.elems[x].prev {
            Some(p) => {
                return Some(p);
            },
            None => {
                match tree.elems[x].parent {
                    Some(q) => {
                        x = q;
                    },
                    None => {
                        return None;
                    },
                }
            },
        }
    }
}

/// Reverses a vector of strings.
fn reverse_strings(v: Vec<String>) -> (r: Vec<String>)
    ensures
        r.deep_view() == v.deep_view().reverse(),
{
    let mut r: Vec<String> = Vec::new();
    let mut i: usize = v.len();
    while i > 0
        invariant
            i <= v@.len(),
            r@.len() == v@.len() - i,
            forall|k: int|
                0 <= k < r@.len() ==> r.deep_view()[k] == v.deep_view()[v@.len() - 1 - k],
        decreases i,
    {
        i -= 1;
        let ghost pre = r.deep_view();
        let ghost n0 = r@.len();
        r.push(v[i].clone());
        proof {
            assert(r@.len() == n0 + 1);
            assert(forall|k: int| 0 <= k < n0 ==> r.deep_view()[k] == pre[k]);
            assert(r.deep_view()[n0 as int] == v.deep_view()[i as int]);
            assert forall|k: int| 0 <= k < r@.len() implies r.deep_view()[k] == v.deep_view()[(
            v@.len() - 1 - k) as int] by {
                if k < n0 {
                    assert(r.deep_view()[k] == pre[k]);
                } else {
                    assert(k == n0 && v@.len() - 1 - k == i);
                }
            }
        }
    }
    proof {
        assert(r.deep_view() =~= v.deep_view().reverse());
    }
    r
}

/// What the scan's answer from `cur` yields once the comments gathered so far
/// (nearest first) are appended: the gathered comments end up reversed, after
/// whatever the rest of the scan finds.
pub open spec fn scan_outcome(o: Option<Seq<Seq<char>>>, gathered: Seq<Seq<char>>) -> Option<
    Seq<Seq<char>>,
> {
    match o {
        None => None,
        Some(rest) => Some(rest + gathered.reverse()),
    }
}

/// Walks backward from the element at `node` and gathers the comments
/// attached to it, nearest comment first, then hands them back in source
/// order; nothing at all when the scan runs into the root.
pub fn find_comments(tree: &SyntaxTree, node: usize) -> (r: Option<Vec<String>>)
    requires
        tree.wf(),
        node < tree.elems@.len(),
    ensures
        r.deep_view() == collect_comments(tree.elems@, node as int),
{
    let ghost elems = tree.elems@;
    let mut comments: Vec<String> = Vec::new();
    let mut cur: usize = node;
    proof {
        assert(comments.deep_view().reverse() =~= Seq::<Seq<char>>::empty());
    }
    loop
        invariant
            tree.wf(),
            elems == tree.elems@,
            cur < elems.len(),
            collect_comments(elems, node as int) == scan_outcome(
                collect_comments(elems, cur as int),
                comments.deep_view(),
            ),
        decreases cur,
    {
        let p_opt = prev_position_exec(tree, cur);
        match p_opt {
            None => {
                return None;
            },
            Some(p) => {
                match tree.elems[p].kind {
                    ElementKind::Comment => {
                        let ghost pre = comments.deep_view();
                        comments.push(tree.elems[p].text.clone());
                        proof {
                            assert(comments.deep_view() =~= pre.push(elems[p as int].text@));
                            lemma_reverse_push(pre, elems[p as int].text@);
                            assert(match collect_comments(elems, p as int) {
                                None => collect_comments(elems, node as int) is None,
                                Some(rest) => collect_comments(elems, node as int) == Some(
                                    rest + comments.deep_view().reverse(),
                                ),
                            }) by {
                                match collect_comments(elems, p as int) {
                                    None => {},
                                    Some(rest) => {
                                        assert(rest.push(elems[p as int].text@) + pre.reverse()
                                            =~= rest + (pre.push(
                                            elems[p as int].text@,
                                        )).reverse());
                                    },
                                }
                            }
                        }
                        cur = p;
                    },
                    ElementKind::AttrPath => {
                        cur = p;
                    },
                    ElementKind::Assign => {
                        cur = p;
                    },
                    ElementKind::Trivia => {
                        cur = p;
                    },
                    _ => {
                        let r = reverse_strings(comments);
                        proof {
                            assert(collect_comments(elems, cur as int) == Some(
                                Seq::<Seq<char>>::empty(),
                            ));
                            assert(Seq::<Seq<char>>::empty() + r.deep_view() =~= r.deep_view());
                        }
                        return Some(r);
                    },
                }
            },
        }
    }
}

/// Reversing after one more gathered element puts that element first.
proof fn lemma_reverse_push(s: Seq<Seq<char>>, x: Seq<char>)
    ensures
        (s.push(x)).reverse() =~= seq![x] + s.reverse(),
{
    assert((s.push(x)).reverse().len() == s.len() + 1);
    assert forall|k: int| 0 <= k < s.len() + 1 implies (s.push(x)).reverse()[k] == (seq![x]
        + s.reverse())[k] by {
        if k == 0 {
            assert((s.push(x)).reverse()[0] == s.push(x)[s.len() as int]);
        } else {
            assert((s.push(x)).reverse()[k] == s.push(x)[s.len() - k]);
            assert((seq![x] + s.reverse())[k] == s.reverse()[k - 1]);
            assert(s.reverse()[k - 1] == s[s.len() - k]);
        }
    }
}

/// The definition one binding yields: its key and the comments attached to
/// its value, provided the binding has the expected shape, an identifier key
/// bound to a function value; `None` otherwise, and such bindings are skipped.
pub open spec fn binding_view(elems: Seq<SyntaxElement>, b: Binding) -> Option<
    CommentDocumentationView,
> {
    if elems[b.key as int].kind == ElementKind::Ident && elems[b.value as int].kind
        == ElementKind::Lambda {
        Some(
            CommentDocumentationView {
                key: elems[b.key as int].text@,
                path: None,
                comments: match collect_comments(elems, b.value as int) {
                    None => Seq::empty(),
                    Some(cs) => cs,
                },
            },
        )
    } else {
        None
    }
}

/// Extracts the definition of one binding, or nothing when the binding does
/// not have the shape of a named function.
pub fn visit_attr_entry(tree: &SyntaxTree, b: &Binding) -> (r: Option<CommentDocumentation>)
    requires
        tree.wf(),
        b.key < tree.elems@.len(),
        b.value < tree.elems@.len(),
    ensures
        r.deep_view() == binding_view(tree.elems@, *b),
{
    let key_is_ident = match tree.elems[b.key].kind {
        ElementKind::Ident => true,
        _ => false,
    };
    let value_is_lambda = match tree.elems[b.value].kind {
        ElementKind::Lambda => true,
        _ => false,
    };
    if !key_is_ident || !value_is_lambda {
        return None;
    }
    let comments = match find_comments(tree, b.value) {
        Some(cs) => cs,
        None => Vec::new(),
    };
    let doc = CommentDocumentation::new(tree.elems[b.key].text.clone(), comments);
    Some(doc)
}

/// The definitions of every well-shaped binding of the file, in preorder.
pub open spec fn walk_spec(elems: Seq<SyntaxElement>, bindings: Seq<Binding>) -> Seq<
    CommentDocumentationView,
>
    decreases bindings.len(),
{
    if bindings.len() == 0 {
        Seq::empty()
    } else {
        let rest = walk_spec(elems, bindings.drop_last());
        match binding_view(elems, bindings.last()) {
            Some(d) => rest.push(d),
            None => rest,
        }
    }
}

/// Walks the whole file and extracts the definition of every named-function
/// binding, in preorder.
pub fn walk_ast(tree: &SyntaxTree) -> (r: Vec<CommentDocumentation>)
    requires
        tree.wf(),
    ensures
        r.deep_view() == walk_spec(tree.elems@, tree.bindings@),
{
    let mut r: Vec<CommentDocumentation> = Vec::new();
    let mut i: usize = 0;
    while i < tree.bindings.len()
        invariant
            tree.wf(),
            i <= tree.bindings@.len(),
            r.deep_view() == walk_spec(tree.elems@, tree.bindings@.take(i as int)),
        decreases tree.bindings@.len() - i,
    {
        proof {
            assert(tree.bindings@.take(i + 1).drop_last() =~= tree.bindings@.take(i as int));
            assert(tree.bindings@.take(i + 1).last() == tree.bindings@[i as int]);
        }
        match visit_attr_entry(tree, &tree.bindings[i]) {
            Some(doc) => {
                vec_push_deep(&mut r, doc);
            },
            None => (),
        }
        i += 1;
    }
    proof {
        assert(tree.bindings@.take(tree.bindings@.len() as int) =~= tree.bindings@);
    }
    r
}

/// The definitions of the file, each carrying the file's path.
pub open spec fn definitions_spec(
    elems: Seq<SyntaxElement>,
    bindings: Seq<Binding>,
    path: Seq<char>,
) -> Seq<CommentDocumentationView> {
    walk_spec(elems, bindings).map_values(
        |d: CommentDocumentationView| CommentDocumentationView { path: Some(path), ..d },
    )
}

/// Extracts every definition of a parsed file and records the file's path on
/// each; `None` when the arena is not well formed.
pub fn extract_definitions(tree: &SyntaxTree, path: &str) -> (r: Option<
    Vec<CommentDocumentation>,
>)
    ensures
        r is Some <==> tree.wf(),
        tree.wf() ==> r.deep_view() == Some(
            definitions_spec(tree.elems@, tree.bindings@, path@),
        ),
{
    if !tree.wf_check() {
        return None;
    }
    let defs = walk_ast(tree);
    let ghost base = walk_spec(tree.elems@, tree.bindings@);
    let mut r: Vec<CommentDocumentation> = Vec::new();
    let mut defs = defs;
    let ghost orig = defs@;
    let mut i: usize = 0;
    let total = defs.len();
    while defs.len() > 0
        invariant
            orig.len() == total,
            defs@ == orig.skip(i as int),
            0 <= i <= orig.len(),
            base.len() == orig.len(),
            forall|k: int| 0 <= k < orig.len() ==> #[trigger] orig[k]@ == base[k],
            r.deep_view() =~= definitions_spec_prefix(base, path@, i as int),
        decreases defs@.len(),
    {
        let d = defs.remove(0);
        proof {
            assert(d == orig[i as int]);
            assert(defs@ =~= orig.skip(i + 1));
        }
        let ghost dv = d@;
        let d2 = d.with_path(path_to_string(path));
        assert(d2@ == (CommentDocumentationView { path: Some(path@), ..dv }));
        vec_push_deep(&mut r, d2);
        proof {
            let mapped = definitions_spec_prefix(base, path@, i + 1);
            assert(mapped.len() == i + 1);
            assert(forall|k: int|
                0 <= k < i + 1 ==> #[trigger] mapped[k] == (CommentDocumentationView {
                    path: Some(path@),
                    ..base[k]
                }));
            assert(r.deep_view() =~= mapped);
        }
        i += 1;
    }
    proof {
        assert(definitions_spec_prefix(base, path@, base.len() as int) =~= definitions_spec(
            tree.elems@,
            tree.bindings@,
            path@,
        ));
    }
    Some(r)
}

/// The first `k` definitions, each carrying the path.
pub open spec fn definitions_spec_prefix(
    base: Seq<CommentDocumentationView>,
    path: Seq<char>,
    k: int,
) -> Seq<CommentDocumentationView> {
    base.take(k).map_values(
        |d: CommentDocumentationView| CommentDocumentationView { path: Some(path), ..d },
    )
}

/// Copies a borrowed path into an owned string.
fn path_to_string(path: &str) -> (r: String)
    ensures
        r@ == path@,
{
    path.to_owned()
}

impl Default for CommentsDatabase {
    fn default() -> (r: Self)
        ensures
            r.hash_to_defs@.len() == 0,
            r.wf(),
    {
        CommentsDatabase::new()
    }
}

/// The keys of a list of definitions, in order.
pub open spec fn defs_keys(defs: Seq<CommentDocumentation>) -> Seq<Seq<char>> {
    Seq::new(defs.len(), |i: int| defs[i].key@)
}

/// Every key of every cached entry, in cache order.
pub open spec fn db_keys(entries: Seq<(u32, Vec<CommentDocumentation>)>) -> Seq<Seq<char>>
    decreases entries.len(),
{
    if entries.len() == 0 {
        Seq::empty()
    } else {
        db_keys(entries.drop_last()) + defs_keys(entries.last().1@)
    }
}

/// The definitions of one list that have comments and whose key matches the
/// folded query: a prefix match when strict, a substring match when liberal.
pub open spec fn defs_results(defs: Seq<CommentDocumentation>, q: Seq<u8>, liberal: bool) -> Seq<
    DocEntryView,
>
    decreases defs.len(),
{
    if defs.len() == 0 {
        Seq::empty()
    } else {
        let rest = defs_results(defs.drop_last(), q, liberal);
        let d = defs.last();
        let key = encode_utf8(d.key@);
        let hit = d.comments@.len() > 0 && (if liberal {
            contains_fold(key, q)
        } else {
            starts_with_fold(key, q)
        });
        if hit {
            rest.push(DocEntryView::CommentDoc(d@))
        } else {
            rest
        }
    }
}

/// The matching definitions of every cached entry, in cache order.
pub open spec fn db_results(
    entries: Seq<(u32, Vec<CommentDocumentation>)>,
    q: Seq<u8>,
    liberal: bool,
) -> Seq<DocEntryView>
    decreases entries.len(),
{
    if entries.len() == 0 {
        Seq::empty()
    } else {
        db_results(entries.drop_last(), q, liberal) + defs_results(entries.last().1@, q, liberal)
    }
}

impl CommentsDatabase {
    fn search_impl(&self, query: &Lowercase, liberal: bool) -> (r: Vec<DocEntry>)
        ensures
            r.deep_view() == db_results(self.hash_to_defs@, query@, liberal),
    {
        let mut r: Vec<DocEntry> = Vec::new();
        let mut i: usize = 0;
        while i < self.hash_to_defs.len()
            invariant
                i <= self.hash_to_defs@.len(),
                r.deep_view() == db_results(self.hash_to_defs@.take(i as int), query@, liberal),
            decreases self.hash_to_defs@.len() - i,
        {
            let ghost outer = db_results(self.hash_to_defs@.take(i as int), query@, liberal);
            let defs: &Vec<CommentDocumentation> = &self.hash_to_defs[i].1;
            let mut j: usize = 0;
            while j < defs.len()
                invariant
                    i < self.hash_to_defs@.len(),
                    j <= defs@.len(),
                    defs@ == self.hash_to_defs@[i as int].1@,
                    outer == db_results(self.hash_to_defs@.take(i as int), query@, liberal),
                    r.deep_view() == outer + defs_results(defs@.take(j as int), query@, liberal),
                decreases defs@.len() - j,
            {
                let d = &defs[j];
                let hit = if d.comments.len() > 0 {
                    let key_bytes = d.key.as_str().as_bytes();
                    if liberal {
                        contains_insensitive_ascii(key_bytes, query)
                    } else {
                        starts_with_insensitive_ascii(key_bytes, query)
                    }
                } else {
                    false
                };
                proof {
                    assert(defs@.take(j + 1).drop_last() =~= defs@.take(j as int));
                    assert(defs@.take(j + 1).last() == defs@[j as int]);
                }
                if hit {
                    vec_push_deep(&mut r, DocEntry::CommentDoc(defs[j].clone()));
                    proof {
                        assert(r.deep_view() =~= outer + defs_results(
                            defs@.take(j + 1),
                            query@,
                            liberal,
                        ));
                    }
                }
                j += 1;
            }
            proof {
                let entries = self.hash_to_defs@;
                assert(defs@.take(defs@.len() as int) =~= defs@);
                assert(entries.take(i + 1).drop_last() =~= entries.take(i as int));
                assert(entries.take(i + 1).last() == entries[i as int]);
            }
            i += 1;
        }
        proof {
            assert(self.hash_to_defs@.take(self.hash_to_defs@.len() as int)
                =~= self.hash_to_defs@);
        }
        r
    }
}

impl DocSource for CommentsDatabase {
    open spec fn keys_spec(&self) -> Seq<Seq<char>> {
        db_keys(self.hash_to_defs@)
    }

    open spec fn search_spec(&self, q: Seq<u8>) -> Seq<DocEntryView> {
        db_results(self.hash_to_defs@, q, false)
    }

    open spec fn search_liberal_spec(&self, q: Seq<u8>) -> Seq<DocEntryView> {
        db_results(self.hash_to_defs@, q, true)
    }

    fn all_keys(&self) -> (r: Vec<&str>)
        ensures
            r.deep_view() == self.keys_spec(),
    {
        let mut r: Vec<&str> = Vec::new();
        let mut i: usize = 0;
        while i < self.hash_to_defs.len()
            invariant
                i <= self.hash_to_defs@.len(),
                r.deep_view() == db_keys(self.hash_to_defs@.take(i as int)),
            decreases self.hash_to_defs@.len() - i,
        {
            let ghost outer = db_keys(self.hash_to_defs@.take(i as int));
            let defs: &Vec<CommentDocumentation> = &self.hash_to_defs[i].1;
            let mut j: usize = 0;
            while j < defs.len()
                invariant
                    i < self.hash_to_defs@.len(),
                    j <= defs@.len(),
                    defs@ == self.hash_to_defs@[i as int].1@,
                    outer == db_keys(self.hash_to_defs@.take(i as int)),
                    r.deep_view() == outer + defs_keys(defs@).take(j as int),
                decreases defs@.len() - j,
            {
                vec_push_deep(&mut r, defs[j].key.as_str());
                proof {
                    let dk = defs_keys(defs@);
                    assert(dk[j as int] == defs@[j as int].key@);
                    assert(outer + dk.take(j + 1) =~= (outer + dk.take(j as int)).push(
                        dk[j as int],
                    ));
                }
                j += 1;
            }
            proof {
                let entries = self.hash_to_defs@;
                let dk = defs_keys(defs@);
                assert(dk.take(dk.len() as int) =~= dk);
                assert(entries.take(i + 1).drop_last() =~= entries.take(i as int));
                assert(entries.take(i + 1).last() == entries[i as int]);
            }
            i += 1;
        }
        proof {
            assert(self.hash_to_defs@.take(self.hash_to_defs@.len() as int)
                =~= self.hash_to_defs@);
        }
        r
    }

    fn search(&self, query: &Lowercase) -> (r: Vec<DocEntry>)
        ensures
            r.deep_view() == self.search_spec(query@),
    {
        self.search_impl(query, false)
    }

    fn search_liberal(&self, query: &Lowercase) -> (r: Vec<DocEntry>)
        ensures
            r.deep_view() == self.search_liberal_spec(query@),
    {
        self.search_impl(query, true)
    }
}

/// The rendered documentation block of one definition: a heading with the
/// name and origin path, then the attached comments with their delimiter
/// markers stripped, one per line.
pub open spec fn comment_pretty_spec(d: CommentDocumentationView) -> Seq<char> {
    "# "@ + d.key + " ("@ + (match d.path {
        Some(p) => p,
        None => Seq::empty(),
    }) + ")\n"@ + join_sep(d.comments.map_values(|c: Seq<char>| cleanup_spec(c)), "\n"@) + "\n\n"@
}

impl CommentDocumentation {
    pub fn pretty_printed(&self) -> (r: String)
        ensures
            r@ == comment_pretty_spec(self@),
    {
        let mut out = String::new();
        out.append("# ");
        out.append(self.key.as_str());
        out.append(" (");
        match &self.path {
            Some(p) => out.append(p.as_str()),
            None => (),
        }
        out.append(")\n");
        let ghost cleaned = self@.comments.map_values(|c: Seq<char>| cleanup_spec(c));
        let mut joined = String::new();
        let mut i: usize = 0;
        while i < self.comments.len()
            invariant
                i <= self.comments@.len(),
                cleaned == self@.comments.map_values(|c: Seq<char>| cleanup_spec(c)),
                cleaned.len() == self.comments@.len(),
                joined@ == join_sep(cleaned.take(i as int), "\n"@),
        decreases self.comments@.len() - i,
        {
            if i > 0 {
                joined.append("\n");
            }
            let piece = cleanup_comment(self.comments[i].as_str());
            joined.append(piece);
            proof {
                assert(cleaned[i as int] == cleanup_spec(self.comments@[i as int]@));
                assert(cleaned.take(i + 1).drop_last() =~= cleaned.take(i as int));
                assert(cleaned.take(i + 1).last() == cleaned[i as int]);
            }
            i += 1;
        }
        proof {
            assert(cleaned.take(cleaned.len() as int) =~= cleaned);
        }
        out.append(joined.as_str());
        out.append("\n\n");
        assert(out@ =~= comment_pretty_spec(self@));
        out
    }
}

} // verus!

verus! {

/// Any window of `s` equals `inner` byte for byte: the plain, case-sensitive
/// substring test used to exclude test directories from the scan.
pub open spec fn contains_plain(s: Seq<u8>, inner: Seq<u8>) -> bool {
    exists|j: int|
        0 <= j <= s.len() - inner.len() && #[trigger] s.subrange(j, j + inner.len()) == inner
}

/// Plain, case-sensitive substring test on bytes.
pub fn contains_bytes(s: &[u8], inner: &[u8]) -> (r: bool)
    ensures
        r == contains_plain(s@, inner@),
{
    if s.len() < inner.len() {
        return false;
    }
    if inner.len() == 0 {
        proof {
            assert(s@.subrange(0, 0 + inner@.len() as int) =~= inner@);
        }
        return true;
    }
    let last: usize = s.len() - inner.len();
    let mut j: usize = 0;
    while j <= last
        invariant
            1 <= inner@.len() <= s@.len() <= usize::MAX,
            last == s@.len() - inner@.len(),
            j <= last + 1,
            forall|t: int| 0 <= t < j ==> #[trigger] s@.subrange(t, t + inner@.len()) != inner@,
        decreases last + 1 - j,
    {
        let mut i: usize = 0;
        let mut hit = true;
        while i < inner.len()
            invariant
                j + inner@.len() <= s@.len() <= usize::MAX,
                i <= inner@.len(),
                hit == (forall|k: int| 0 <= k < i ==> s@[j + k] == inner@[k]),
            decreases inner@.len() - i,
        {
            if s[j + i] != inner[i] {
                assert(s@[j + i] != inner@[i as int]);
                hit = false;
                i = inner.len();
            } else {
                i += 1;
            }
        }
        if hit {
            assert(s@.subrange(j as int, j + inner@.len()) =~= inner@);
            return true;
        }
        proof {
            assert(s@.subrange(j as int, j + inner@.len()) != inner@) by {
                let k = choose|k: int| 0 <= k < inner@.len() && s@[j + k] != inner@[k];
                assert(s@.subrange(j as int, j + inner@.len())[k] == s@[j + k]);
            }
        }
        j += 1;
    }
    false
}

/// Whether a discovered file takes part in the comment scan: it is no
/// directory, its path does not contain "test" anywhere (a deliberately
/// rough, substring-based exclusion of test directories), and it carries the
/// source extension the caller checked for.
pub fn scan_path_allowed(path: &str, is_dir: bool, has_source_extension: bool) -> (r: bool)
    ensures
        r == (!is_dir && !contains_plain(
            vstd::utf8::encode_utf8(path@),
            vstd::utf8::encode_utf8("test"@),
        ) && has_source_extension),
{
    !is_dir && !contains_bytes(path.as_bytes(), "test".as_bytes()) && has_source_extension
}

/// Every hash is either cached already or selected as missing.
pub proof fn lemma_missing_covers(
    entries: Seq<(u32, Vec<CommentDocumentation>)>,
    hs: Seq<u32>,
    i: int,
)
    requires
        0 <= i < hs.len(),
    ensures
        hash_in(entries, hs[i]) || missing_spec(entries, hs).contains(hs[i]),
    decreases hs.len(),
{
    if i == hs.len() - 1 {
        if !hash_in(entries, hs.last()) {
            let m = missing_spec(entries, hs);
            assert(m == missing_spec(entries, hs.drop_last()).push(hs.last()));
            assert(m[m.len() - 1] == hs[i]);
            assert(m.contains(hs[i]));
        }
    } else {
        lemma_missing_covers(entries, hs.drop_last(), i);
        assert(hs.drop_last()[i] == hs[i]);
        if missing_spec(entries, hs.drop_last()).contains(hs[i]) {
            let m0 = missing_spec(entries, hs.drop_last());
            let k = choose|k: int| 0 <= k < m0.len() && m0[k] == hs[i];
            if hash_in(entries, hs.last()) {
                assert(missing_spec(entries, hs) == m0);
            } else {
                assert(missing_spec(entries, hs) == m0.push(hs.last()));
                assert(missing_spec(entries, hs)[k] == hs[i]);
            }
            assert(missing_spec(entries, hs).contains(hs[i]));
        }
    }
}

/// Nothing is selected when every hash is cached already.
pub proof fn lemma_missing_empty(entries: Seq<(u32, Vec<CommentDocumentation>)>, hs: Seq<u32>)
    requires
        forall|i: int| 0 <= i < hs.len() ==> hash_in(entries, #[trigger] hs[i]),
    ensures
        missing_spec(entries, hs) =~= Seq::<u32>::empty(),
    decreases hs.len(),
{
    if hs.len() > 0 {
        assert(forall|i: int| 0 <= i < hs.drop_last().len() ==> hs.drop_last()[i] == #[trigger] hs[
        i]);
        lemma_missing_empty(entries, hs.drop_last());
        assert(hash_in(entries, hs.last())) by {
            assert(hs[hs.len() - 1] == hs.last());
        }
    }
}

/// Extraction is idempotent: once an update has merged results for exactly
/// the content that was missing, a second update over the same content
/// hashes selects nothing to parse; merging an empty batch then reports no
/// change and leaves the hash-to-definitions entries exactly as they were,
/// which `apply_parsed` guarantees of an empty batch.
pub proof fn lemma_update_idempotent(
    db0: Seq<(u32, Vec<CommentDocumentation>)>,
    db1: Seq<(u32, Vec<CommentDocumentation>)>,
    hs: Seq<u32>,
    parsed: Seq<(u32, Vec<CommentDocumentation>)>,
)
    requires
        parsed_hashes(parsed) == missing_spec(db0, hs),
        forall|h: u32| #[trigger] hash_in(db1, h) <==> hash_in(db0, h) || hash_in(parsed, h),
    ensures
        missing_spec(db1, hs) =~= Seq::<u32>::empty(),
{
    assert forall|i: int| 0 <= i < hs.len() implies hash_in(db1, #[trigger] hs[i]) by {
        lemma_missing_covers(db0, hs, i);
        if missing_spec(db0, hs).contains(hs[i]) {
            let m = missing_spec(db0, hs);
            let j = choose|j: int| 0 <= j < m.len() && m[j] == hs[i];
            assert(parsed_hashes(parsed)[j] == parsed[j].0);
            assert(hash_in(parsed, hs[i]));
        }
    }
    lemma_missing_empty(db1, hs);
}

/// A changed file re-extracts alone: with every other hash cached already
/// and the changed file's new hash not, the update selects exactly the new
/// hash; `apply_parsed` then leaves every entry whose hash it was not handed
/// untouched.
pub proof fn lemma_changed_file_reextracts_alone(
    entries: Seq<(u32, Vec<CommentDocumentation>)>,
    hs: Seq<u32>,
    fresh: u32,
)
    requires
        forall|i: int| 0 <= i < hs.len() ==> hash_in(entries, #[trigger] hs[i]),
        !hash_in(entries, fresh),
    ensures
        missing_spec(entries, hs.push(fresh)) =~= seq![fresh],
{
    let all = hs.push(fresh);
    assert(all.drop_last() =~= hs);
    assert(all.last() == fresh);
    lemma_missing_empty(entries, hs);
    assert(missing_spec(entries, all) == missing_spec(entries, hs).push(fresh));
    assert(missing_spec(entries, hs).push(fresh) =~= seq![fresh]);
}

} // verus!
