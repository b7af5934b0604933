//! Embeddings: what a provider's response must hold, and the deterministic
//! embedding that needs no provider. The components of an embedding stand as
//! their IEEE-754 bits.

use vstd::prelude::*;
use vstd::string::*;
use vstd::utf8::*;

use crate::error::{MemoryError, MemoryErrorView};
use crate::record::clone_bits;
use crate::retry::{AttemptError, AttemptErrorView};
use crate::text;
use crate::text::{lower_ascii, push_decimal, split_words, text_ends_with};

verus! {

pub const EMBEDDING_MAX_ATTEMPTS: usize = 8;

/// A vector of a response, with the place that the provider gives it.
#[derive(Debug)]
pub struct EmbeddingItem {
    pub index: Option<usize>,
    pub embedding: Vec<u32>,
}

pub open spec fn vector_views(v: Seq<Vec<u32>>) -> Seq<Seq<u32>> {
    Seq::new(v.len(), |i: int| v[i]@)
}

/// Whether none of the vectors has a place.
pub open spec fn none_indexed(items: Seq<EmbeddingItem>) -> bool {
    forall|i: int| 0 <= i < items.len() ==> (#[trigger] items[i]).index is None
}

/// Whether each of the vectors has a place.
pub open spec fn all_indexed(items: Seq<EmbeddingItem>) -> bool {
    forall|i: int| 0 <= i < items.len() ==> (#[trigger] items[i]).index is Some
}

/// The first vector at a place, or the number of vectors.
pub open spec fn place_index(items: Seq<EmbeddingItem>, place: nat) -> int
    decreases items.len(),
{
    if items.len() == 0 || (items[0].index is Some && items[0].index->0 == place) {
        0
    } else {
        1 + place_index(items.drop_first(), place)
    }
}

/// Whether there is a vector at every place from 0 on, and so no place has two.
pub open spec fn places_are_complete(items: Seq<EmbeddingItem>) -> bool {
    forall|k: nat| k < items.len() ==> #[trigger] place_index(items, k) < items.len()
}

/// The vectors of a response in order: in the order of their places, or as
/// they came where they have none. Some places, or places with a gap, are an
/// error.
pub open spec fn ordered(items: Seq<EmbeddingItem>) -> Result<Seq<Seq<u32>>, MemoryErrorView> {
    if none_indexed(items) {
        Ok(Seq::new(items.len(), |i: int| items[i].embedding@))
    } else if all_indexed(items) {
        if places_are_complete(items) {
            Ok(Seq::new(items.len(), |i: int| items[place_index(items, i as nat)].embedding@))
        } else {
            Err(
                MemoryErrorView::Embedding("embedding API returned non-contiguous indexes"@),
            )
        }
    } else {
        Err(MemoryErrorView::Embedding("embedding API returned partial indexes"@))
    }
}

proof fn lemma_place_index(items: Seq<EmbeddingItem>, place: nat)
    ensures
        0 <= place_index(items, place) <= items.len(),
        place_index(items, place) < items.len() ==> items[place_index(items, place)].index is Some
            && items[place_index(items, place)].index->0 == place,
    decreases items.len(),
{
    if items.len() > 0 && !(items[0].index is Some && items[0].index->0 == place) {
        lemma_place_index(items.drop_first(), place);
    }
}

fn find_place(items: &Vec<EmbeddingItem>, place: usize) -> (r: usize)
    ensures
        r == place_index(items@, place as nat),
        r <= items@.len(),
{
    let mut i: usize = 0;
    assert(items@.skip(0) =~= items@);
    while i < items.len()
        invariant
            i <= items@.len(),
            place_index(items@, place as nat) == i + place_index(
                items@.skip(i as int),
                place as nat,
            ),
        decreases items@.len() - i,
    {
        assert(items@.skip(i as int)[0] == items@[i as int]);
        match items[i].index {
            Some(index) => {
                if index == place {
                    return i;
                }
            },
            None => {},
        }
        assert(items@.skip(i as int).drop_first() =~= items@.skip(i + 1));
        i += 1;
    }
    i
}

/// The vectors of a response in order.
pub fn ordered_embeddings(items: &Vec<EmbeddingItem>) -> (r: Result<Vec<Vec<u32>>, MemoryError>)
    ensures
        match r {
            Ok(vectors) => ordered(items@) == Ok::<_, MemoryErrorView>(vector_views(vectors@)),
            Err(e) => ordered(items@) == Err::<Seq<Seq<u32>>, _>(e@),
        },
{
    let n: usize = items.len();
    let mut indexed: usize = 0;
    let mut i: usize = 0;
    while i < n
        invariant
            n == items@.len(),
            indexed <= i <= n,
            indexed == 0 <==> forall|k: int|
                0 <= k < i ==> (#[trigger] items@[k]).index is None,
            indexed == i <==> forall|k: int|
                0 <= k < i ==> (#[trigger] items@[k]).index is Some,
        decreases n - i,
    {
        let ghost before = indexed;
        if items[i].index.is_some() {
            indexed += 1;
            assert(items@[i as int].index is Some);
        } else {
            assert(items@[i as int].index is None);
        }
        i += 1;
    }
    let mut vectors: Vec<Vec<u32>> = Vec::new();
    let mut k: usize = 0;
    if indexed == 0 {
        while k < n
            invariant
                n == items@.len(),
                k <= n,
                vectors@.len() == k,
                forall|j: int| 0 <= j < k ==> (#[trigger] vectors@[j])@ == items@[j].embedding@,
            decreases n - k,
        {
            let bits = clone_bits(&items[k].embedding);
            vectors.push(bits);
            k += 1;
        }
        assert(vector_views(vectors@) =~= Seq::new(
            items@.len(),
            |i: int| items@[i].embedding@,
        ));
        Ok(vectors)
    } else if indexed == n {
        while k < n
            invariant
                n == items@.len(),
                k <= n,
                vectors@.len() == k,
                !none_indexed(items@),
                all_indexed(items@),
                forall|j: nat| j < k ==> #[trigger] place_index(items@, j) < items@.len(),
                forall|j: int|
                    0 <= j < k ==> (#[trigger] vectors@[j])@ == items@[place_index(
                        items@,
                        j as nat,
                    )].embedding@,
            decreases n - k,
        {
            let at = find_place(items, k);
            proof {
                lemma_place_index(items@, k as nat);
            }
            if at == n {
                assert(place_index(items@, k as nat) == items@.len());
                return Err(
                    MemoryError::embedding("embedding API returned non-contiguous indexes"),
                );
            }
            let bits = clone_bits(&items[at].embedding);
            vectors.push(bits);
            k += 1;
        }
        assert(vector_views(vectors@) =~= Seq::new(
            items@.len(),
            |i: int| items@[place_index(items@, i as nat)].embedding@,
        ));
        Ok(vectors)
    } else {
        Err(MemoryError::embedding("embedding API returned partial indexes"))
    }
}

/// What is said of the first vector from `from` on that has another dimension.
pub open spec fn dimension_problem(
    vectors: Seq<Seq<u32>>,
    from: nat,
    dimensions: nat,
) -> Option<AttemptErrorView>
    decreases vectors.len() - from,
{
    if from >= vectors.len() {
        None
    } else if vectors[from as int].len() != dimensions {
        Some(
            AttemptErrorView {
                retryable: false,
                message: "embedding dimension mismatch at index "@ + text::decimal_text(from)
                    + ": expected "@ + text::decimal_text(dimensions) + " got "@
                    + text::decimal_text(vectors[from as int].len()),
            },
        )
    } else {
        dimension_problem(vectors, from + 1, dimensions)
    }
}

/// Checks that every vector has the dimension that is configured.
pub fn check_dimensions(vectors: &Vec<Vec<u32>>, dimensions: usize) -> (r: Result<
    (),
    AttemptError,
>)
    ensures
        match r {
            Ok(_) => dimension_problem(vector_views(vectors@), 0, dimensions as nat) is None,
            Err(e) => dimension_problem(vector_views(vectors@), 0, dimensions as nat) == Some(e@),
        },
{
    let mut i: usize = 0;
    while i < vectors.len()
        invariant
            i <= vectors@.len(),
            dimension_problem(vector_views(vectors@), 0, dimensions as nat) == dimension_problem(
                vector_views(vectors@),
                i as nat,
                dimensions as nat,
            ),
        decreases vectors@.len() - i,
    {
        assert(vector_views(vectors@)[i as int] == vectors@[i as int]@);
        if vectors[i].len() != dimensions {
            let mut message = "embedding dimension mismatch at index ".to_owned();
            push_decimal(&mut message, i as u64);
            message.append(": expected ");
            push_decimal(&mut message, dimensions as u64);
            message.append(" got ");
            push_decimal(&mut message, vectors[i].len() as u64);
            return Err(AttemptError { retryable: false, message });
        }
        i += 1;
    }
    Ok(())
}

/// The address of a service's endpoint: the base address with the endpoint
/// behind it, unless it ends with the endpoint already.
pub open spec fn endpoint_url(base: Seq<char>, endpoint: Seq<char>) -> Seq<char> {
    if text::ends_with(base, endpoint) {
        base
    } else {
        base + endpoint
    }
}

pub fn service_url(base_url: &str, endpoint: &str) -> (r: String)
    ensures
        r@ == endpoint_url(base_url@, endpoint@),
{
    let mut r = base_url.to_owned();
    if !text_ends_with(base_url, endpoint) {
        r.append(endpoint);
    }
    r
}

/// Asking for the endpoint of an address that has it already changes nothing.
pub proof fn endpoint_is_not_appended_twice(base: Seq<char>, endpoint: Seq<char>)
    ensures
        endpoint_url(endpoint_url(base, endpoint), endpoint) == endpoint_url(base, endpoint),
{
    if !text::ends_with(base, endpoint) {
        let url = base + endpoint;
        assert(url.subrange(url.len() - endpoint.len(), url.len() as int) =~= endpoint);
    }
}

/// An address without the slashes at its end.
pub open spec fn without_slashes(s: Seq<char>) -> Seq<char>
    decreases s.len(),
{
    if s.len() > 0 && s.last() == '/' {
        without_slashes(s.drop_last())
    } else {
        s
    }
}

/// An address without the slashes at its end.
pub fn trim_slashes(s: &str) -> (r: String)
    ensures
        r@ == without_slashes(s@),
{
    let chars = text::to_chars(s);
    let mut n: usize = chars.len();
    assert(chars@.take(n as int) =~= s@);
    while n > 0 && chars[n - 1] == '/'
        invariant
            n <= chars@.len(),
            without_slashes(s@) == without_slashes(chars@.take(n as int)),
        ensures
            n <= chars@.len(),
            without_slashes(s@) == chars@.take(n as int),
        decreases n,
    {
        assert(chars@.take(n as int).drop_last() =~= chars@.take(n - 1));
        n -= 1;
    }
    let r = text::from_chars(&chars, 0, n);
    assert(r@ =~= chars@.take(n as int));
    r
}

/// What names the embeddings of a provider: two providers with one profile
/// give comparable vectors.
pub open spec fn provider_profile(base_url: Seq<char>, model: Seq<char>, dimensions: nat) -> Seq<
    char,
> {
    "openai_compatible:"@ + base_url + ":"@ + model + ":"@ + text::decimal_text(dimensions)
}

/// A service that embeds texts.
#[derive(Clone, Debug)]
pub struct OpenRouterEmbedding {
    pub api_key: String,
    pub base_url: String,
    pub model: String,
    pub dimensions: usize,
}

impl OpenRouterEmbedding {
    /// A model at the usual address.
    pub fn new(api_key: &str, model: &str, dimensions: usize) -> (r: Self)
        ensures
            r.api_key@ == api_key@,
            r.base_url@ == without_slashes("https://openrouter.ai/api/v1"@),
            r.model@ == model@,
            r.dimensions == dimensions,
    {
        Self::with_base_url(api_key, "https://openrouter.ai/api/v1", model, dimensions)
    }

    /// A model at an address; slashes at its end do not count.
    pub fn with_base_url(api_key: &str, base_url: &str, model: &str, dimensions: usize) -> (r: Self)
        ensures
            r.api_key@ == api_key@,
            r.base_url@ == without_slashes(base_url@),
            r.model@ == model@,
            r.dimensions == dimensions,
    {
        OpenRouterEmbedding {
            api_key: api_key.to_owned(),
            base_url: trim_slashes(base_url),
            model: model.to_owned(),
            dimensions,
        }
    }

    /// The address that is asked.
    pub fn embeddings_url(&self) -> (r: String)
        ensures
            r@ == endpoint_url(self.base_url@, "/embeddings"@),
    {
        service_url(self.base_url.as_str(), "/embeddings")
    }

    /// What names the embeddings of this provider.
    pub fn profile_id(&self) -> (r: String)
        ensures
            r@ == provider_profile(self.base_url@, self.model@, self.dimensions as nat),
    {
        let mut r = "openai_compatible:".to_owned();
        r.append(self.base_url.as_str());
        r.append(":");
        r.append(self.model.as_str());
        r.append(":");
        push_decimal(&mut r, self.dimensions as u64);
        r
    }
}

/// The FNV-1a hash of the first bytes.
pub open spec fn fnv_hash(bytes: Seq<u8>) -> u64
    decreases bytes.len(),
{
    if bytes.len() == 0 {
        1469598103934665603
    } else {
        vstd::wrapping::u64_specs::wrapping_mul(
            fnv_hash(bytes.drop_last()) ^ (bytes.last() as u64),
            1099511628211,
        )
    }
}

fn hash_bytes(bytes: &[u8]) -> (r: u64)
    ensures
        r == fnv_hash(bytes@),
{
    let mut hash: u64 = 1469598103934665603;
    let mut i: usize = 0;
    assert(bytes@.take(0) =~= Seq::empty());
    while i < bytes.len()
        invariant
            i <= bytes@.len(),
            hash == fnv_hash(bytes@.take(i as int)),
        decreases bytes@.len() - i,
    {
        assert(bytes@.take(i + 1).drop_last() =~= bytes@.take(i as int));
        hash = (hash ^ (bytes[i] as u64)).wrapping_mul(1099511628211);
        i += 1;
    }
    assert(bytes@.take(i as int) =~= bytes@);
    hash
}

/// The component of a hash embedding that a word falls on.
pub open spec fn word_bucket(word: Seq<char>, dimensions: nat) -> int {
    (fnv_hash(encode_utf8(text::ascii_lower_text(word))) as usize) as int % dimensions as int
}

/// How often each component is hit by the words of a text.
pub open spec fn bucket_counts(words: Seq<Seq<char>>, dimensions: nat) -> Seq<nat>
    decreases words.len(),
{
    if words.len() == 0 {
        Seq::new(dimensions, |i: int| 0)
    } else {
        let before = bucket_counts(words.drop_last(), dimensions);
        let b = word_bucket(words.last(), dimensions);
        before.update(b, before[b] + 1)
    }
}

/// The components of the hash embedding of a text. There is one at least.
pub open spec fn hash_counts(s: Seq<char>, dimensions: nat) -> Seq<nat> {
    bucket_counts(
        text::words_of(s),
        if dimensions == 0 {
            1
        } else {
            dimensions
        },
    )
}

pub open spec fn count_views(v: Seq<u64>) -> Seq<nat> {
    Seq::new(v.len(), |i: int| v[i] as nat)
}

/// A deterministic embedding for tests and offline checks: each component
/// counts the words that fall on it.
#[derive(Clone, Copy, Debug, PartialEq, Eq, Structural)]
pub struct HashEmbedding {
    pub dimensions: usize,
}

proof fn lemma_bucket_counts(words: Seq<Seq<char>>, dimensions: nat)
    requires
        dimensions > 0,
    ensures
        bucket_counts(words, dimensions).len() == dimensions,
        forall|i: int|
            0 <= i < dimensions ==> #[trigger] bucket_counts(words, dimensions)[i] <= words.len(),
    decreases words.len(),
{
    if words.len() > 0 {
        lemma_bucket_counts(words.drop_last(), dimensions);
    }
}

impl HashEmbedding {
    pub fn new(dimensions: usize) -> (r: Self)
        ensures
            r.dimensions == dimensions,
    {
        HashEmbedding { dimensions }
    }

    /// The profile of these embeddings.
    pub fn profile_id(&self) -> (r: String)
        ensures
            r@ == "hash:"@ + text::decimal_text(self.dimensions as nat),
    {
        let mut r = "hash:".to_owned();
        push_decimal(&mut r, self.dimensions as u64);
        r
    }

    /// The embedding of a text, as the count of each component. There is one
    /// component at least.
    pub fn hash_embed(&self, text: &str) -> (r: Vec<u64>)
        ensures
            count_views(r@) == hash_counts(text@, self.dimensions as nat),
    {
        let n: usize = if self.dimensions == 0 {
            1
        } else {
            self.dimensions
        };
        let words = split_words(text);
        let ghost all = text::strings(words@);
        let mut counts: Vec<u64> = Vec::new();
        let mut k: usize = 0;
        while k < n
            invariant
                k <= n,
                counts@.len() == k,
                forall|i: int| 0 <= i < k ==> #[trigger] counts@[i] == 0,
            decreases n - k,
        {
            counts.push(0);
            k += 1;
        }
        assert(all.take(0) =~= Seq::empty());
        assert(count_views(counts@) =~= bucket_counts(all.take(0), n as nat));
        let mut i: usize = 0;
        while i < words.len()
            invariant
                i <= words@.len(),
                n > 0,
                counts@.len() == n,
                all == text::strings(words@),
                count_views(counts@) == bucket_counts(all.take(i as int), n as nat),
            decreases words@.len() - i,
        {
            let ghost before = count_views(counts@);
            assert(all.take(i + 1).drop_last() =~= all.take(i as int));
            assert(all.take(i + 1).last() == words@[i as int]@);
            let lower = lower_ascii(words[i].as_str());
            let hash = hash_bytes(lower.as_str().as_bytes());
            let b: usize = (hash as usize) % n;
            proof {
                lemma_bucket_counts(all.take(i as int), n as nat);
                assert(before[b as int] <= i);
                assert(before[b as int] == counts@[b as int]);
            }
            let count: u64 = counts[b];
            counts.set(b, count + 1);
            assert(count_views(counts@) =~= before.update(b as int, before[b as int] + 1));
            i += 1;
        }
        assert(all.take(i as int) =~= all);
        counts
    }
}

/// Words in lower case.
pub open spec fn lowered(words: Seq<Seq<char>>) -> Seq<Seq<char>> {
    words.map_values(|w: Seq<char>| text::ascii_lower_text(w))
}

/// Whether a word in lower case falls on a component.
pub open spec fn falls_on(dimensions: nat, component: int) -> spec_fn(Seq<char>) -> bool {
    |w: Seq<char>|
        (fnv_hash(encode_utf8(w)) as usize) as int % dimensions as int == component
}

/// A component counts the words that fall on it.
proof fn lemma_bucket_count(words: Seq<Seq<char>>, dimensions: nat, component: int)
    requires
        0 <= component < dimensions,
    ensures
        bucket_counts(words, dimensions)[component] == lowered(words).to_multiset().filter(
            falls_on(dimensions, component),
        ).len(),
    decreases words.len(),
{
    broadcast use vstd::multiset::group_multiset_axioms;

    lemma_bucket_counts(words, dimensions);
    let f = falls_on(dimensions, component);
    if words.len() == 0 {
        assert(lowered(words) =~= Seq::empty());
        lowered(words).to_multiset_ensures();
        assert(lowered(words).to_multiset().filter(f) =~= vstd::multiset::Multiset::empty());
    } else {
        let before = lowered(words.drop_last());
        let word = text::ascii_lower_text(words.last());
        lemma_bucket_counts(words.drop_last(), dimensions);
        lemma_bucket_count(words.drop_last(), dimensions, component);
        assert(lowered(words) =~= before.push(word));
        before.to_multiset_ensures();
        let m = before.to_multiset();
        assert(lowered(words).to_multiset() =~= m.insert(word));
        if f(word) {
            assert(m.insert(word).filter(f) =~= m.filter(f).insert(word));
        } else {
            assert(m.insert(word).filter(f) =~= m.filter(f));
        }
    }
}

/// The hash embedding of a text depends on how often it holds each word alone:
/// the order of the words, the space between them and their case do not matter.
pub proof fn hash_embeddings_ignore_the_order_of_words(
    a: Seq<char>,
    b: Seq<char>,
    dimensions: nat,
)
    requires
        lowered(text::words_of(a)).to_multiset() == lowered(text::words_of(b)).to_multiset(),
    ensures
        hash_counts(a, dimensions) == hash_counts(b, dimensions),
{
    let n: nat = if dimensions == 0 {
        1
    } else {
        dimensions
    };
    lemma_bucket_counts(text::words_of(a), n);
    lemma_bucket_counts(text::words_of(b), n);
    assert forall|i: int| 0 <= i < n implies hash_counts(a, dimensions)[i] == hash_counts(
        b,
        dimensions,
    )[i] by {
        lemma_bucket_count(text::words_of(a), n, i);
        lemma_bucket_count(text::words_of(b), n, i);
    }
    assert(hash_counts(a, dimensions) =~= hash_counts(b, dimensions));
}

/// The sum of some counts.
pub open spec fn sum_of(counts: Seq<nat>) -> nat
    decreases counts.len(),
{
    if counts.len() == 0 {
        0
    } else {
        sum_of(counts.drop_last()) + counts.last()
    }
}

proof fn lemma_sum_grows(counts: Seq<nat>, i: int)
    requires
        0 <= i < counts.len(),
    ensures
        sum_of(counts.update(i, counts[i] + 1)) == sum_of(counts) + 1,
    decreases counts.len(),
{
    let grown = counts.update(i, counts[i] + 1);
    if i == counts.len() - 1 {
        assert(grown.drop_last() =~= counts.drop_last());
    } else {
        lemma_sum_grows(counts.drop_last(), i);
        assert(grown.drop_last() =~= counts.drop_last().update(i, counts[i] + 1));
    }
}

proof fn lemma_sum_of_zeros(n: nat)
    ensures
        sum_of(Seq::new(n, |i: int| 0nat)) == 0,
    decreases n,
{
    if n > 0 {
        lemma_sum_of_zeros((n - 1) as nat);
        assert(Seq::new(n, |i: int| 0nat).drop_last() =~= Seq::new((n - 1) as nat, |i: int| 0nat));
    }
}

proof fn lemma_counts_sum(words: Seq<Seq<char>>, dimensions: nat)
    requires
        dimensions > 0,
    ensures
        sum_of(bucket_counts(words, dimensions)) == words.len(),
    decreases words.len(),
{
    if words.len() == 0 {
        lemma_sum_of_zeros(dimensions);
        assert(bucket_counts(words, dimensions) =~= Seq::new(dimensions, |i: int| 0nat));
    } else {
        let before = bucket_counts(words.drop_last(), dimensions);
        lemma_counts_sum(words.drop_last(), dimensions);
        lemma_bucket_counts(words.drop_last(), dimensions);
        lemma_sum_grows(before, word_bucket(words.last(), dimensions));
    }
}

/// A hash embedding has as many components as asked for, but one at least, and
/// together they count every word of the text once.
pub proof fn hash_embeddings_count_every_word(s: Seq<char>, dimensions: nat)
    ensures
        hash_counts(s, dimensions).len() == (if dimensions == 0 {
            1
        } else {
            dimensions
        }),
        sum_of(hash_counts(s, dimensions)) == text::words_of(s).len(),
{
    let n: nat = if dimensions == 0 {
        1
    } else {
        dimensions
    };
    lemma_bucket_counts(text::words_of(s), n);
    lemma_counts_sum(text::words_of(s), n);
}

/// Whether a vector is one with a place.
pub open spec fn is_vector_at(items: Seq<EmbeddingItem>, place: int, v: Seq<u32>) -> bool {
    exists|j: int|
        0 <= j < items.len() && (#[trigger] items[j]).index is Some && items[j].index->0 == place
            && items[j].embedding@ == v
}

/// Vectors with places stand at their places, one at each. Vectors without places
/// stand as they came.
pub proof fn vectors_stand_at_their_places(items: Seq<EmbeddingItem>)
    requires
        ordered(items) is Ok,
    ensures
        ordered(items)->Ok_0.len() == items.len(),
        none_indexed(items) ==> forall|i: int|
            0 <= i < items.len() ==> #[trigger] ordered(items)->Ok_0[i] == items[i].embedding@,
        !none_indexed(items) ==> forall|i: int|
            0 <= i < items.len() ==> is_vector_at(items, i, #[trigger] ordered(items)->Ok_0[i]),
{
    if !none_indexed(items) {
        assert forall|i: int| 0 <= i < items.len() implies is_vector_at(
            items,
            i,
            #[trigger] ordered(items)->Ok_0[i],
        ) by {
            lemma_place_index(items, i as nat);
            let j = place_index(items, i as nat);
            assert(place_index(items, i as nat) < items.len());
            assert(items[j].index is Some && items[j].index->0 == i);
        }
    }
}

/// Vectors are refused exactly where one of them has another dimension than asked
/// for, and the report names the first of these.
pub proof fn dimensions_are_checked(vectors: Seq<Seq<u32>>, from: nat, dimensions: nat)
    ensures
        dimension_problem(vectors, from, dimensions) is None <==> forall|i: int|
            from <= i < vectors.len() ==> (#[trigger] vectors[i]).len() == dimensions,
        dimension_problem(vectors, from, dimensions) matches Some(e) ==> !e.retryable,
    decreases vectors.len() - from,
{
    if from < vectors.len() {
        dimensions_are_checked(vectors, from + 1, dimensions);
        if dimension_problem(vectors, from, dimensions) is None {
            assert forall|i: int| from <= i < vectors.len() implies (#[trigger] vectors[i]).len()
                == dimensions by {
                if i > from {
                    assert(from + 1 <= i);
                }
            }
        }
    }
}

/// An address loses the slashes at its end, all of them and nothing else.
pub proof fn slashes_are_taken_off(s: Seq<char>)
    ensures
        without_slashes(s).len() <= s.len(),
        without_slashes(s) == s.take(without_slashes(s).len() as int),
        without_slashes(s).len() > 0 ==> without_slashes(s).last() != '/',
        forall|i: int| without_slashes(s).len() <= i < s.len() ==> #[trigger] s[i] == '/',
    decreases s.len(),
{
    if s.len() > 0 && s.last() == '/' {
        let front = s.drop_last();
        slashes_are_taken_off(front);
        assert(without_slashes(s) =~= s.take(without_slashes(s).len() as int));
        assert forall|i: int| without_slashes(s).len() <= i < s.len() implies #[trigger] s[i] == '/' by {
            if i < front.len() {
                assert(front[i] == s[i]);
            }
        }
    } else {
        assert(s =~= s.take(s.len() as int));
    }
}

/// The profile of a service tells its address, its model and its dimensions, in this
/// order, with colons between them.
pub proof fn profiles_tell_address_model_and_dimensions(
    base_url: Seq<char>,
    model: Seq<char>,
    dimensions: nat,
)
    ensures
        ({
            let p = provider_profile(base_url, model, dimensions);
            let lead = "openai_compatible:"@;
            let a = lead.len() as int;
            let b = a + base_url.len();
            let c = b + 1 + model.len();
            &&& p.len() == c + 1 + text::decimal_text(dimensions).len()
            &&& p.take(a) == lead
            &&& p.subrange(a, b) == base_url
            &&& p[b] == ':' && p[c] == ':'
            &&& p.subrange(b + 1, c) == model
            &&& p.skip(c + 1) == text::decimal_text(dimensions)
        }),
{
    reveal_strlit(":");
    let p = provider_profile(base_url, model, dimensions);
    let lead = "openai_compatible:"@;
    let a = lead.len() as int;
    let b = a + base_url.len();
    let c = b + 1 + model.len();
    assert(p.take(a) =~= lead);
    assert(p.subrange(a, b) =~= base_url);
    assert(p.subrange(b + 1, c) =~= model);
    assert(p.skip(c + 1) =~= text::decimal_text(dimensions));
}

/// A hash embedding has the dimensions that are asked for, but one at least.
pub proof fn hash_embeddings_have_their_dimensions(s: Seq<char>, dimensions: nat)
    ensures
        dimensions > 0 ==> hash_counts(s, dimensions).len() == dimensions,
        hash_counts(s, 0).len() == 1,
{
    lemma_bucket_counts(
        text::words_of(s),
        if dimensions == 0 {
            1
        } else {
            dimensions
        },
    );
    lemma_bucket_counts(text::words_of(s), 1);
}

} // verus!
