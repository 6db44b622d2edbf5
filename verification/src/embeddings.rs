//! Embedding errors and the byte encoding of embeddings.
//!
//! An embedding is a vector of `f32` values; here each value is carried by
//! its bit pattern (`f32::to_bits` / `f32::from_bits`, which are exact
//! inverses), so the encoding is stated and proved on `u32` words: each
//! word becomes its four little-endian bytes.
use vstd::prelude::*;

verus! {

/// Dimensionality of the all-MiniLM-L6-v2 embedding space.
pub const EMBEDDING_DIM: usize = 384;

/// Errors that can occur during embedding operations.
#[derive(Debug)]
pub enum EmbeddingError {
    ModelLoad(String),
    TokenizerLoad(String),
    Inference(String),
    InvalidData(String),
}

/// The text an `EmbeddingError` is reported with.
pub open spec fn error_text(e: EmbeddingError) -> Seq<char> {
    match e {
        EmbeddingError::ModelLoad(msg) => "model load error: "@ + msg@,
        EmbeddingError::TokenizerLoad(msg) => "tokenizer load error: "@ + msg@,
        EmbeddingError::Inference(msg) => "inference error: "@ + msg@,
        EmbeddingError::InvalidData(msg) => "invalid embedding data: "@ + msg@,
    }
}

impl EmbeddingError {
    /// The text this error is reported with.
    pub fn message(&self) -> (res: String)
        ensures
            res@ == error_text(*self),
    {
        match self {
            EmbeddingError::ModelLoad(msg) => {
                let mut s = "model load error: ".to_owned();
                s.append(msg.as_str());
                s
            },
            EmbeddingError::TokenizerLoad(msg) => {
                let mut s = "tokenizer load error: ".to_owned();
                s.append(msg.as_str());
                s
            },
            EmbeddingError::Inference(msg) => {
                let mut s = "inference error: ".to_owned();
                s.append(msg.as_str());
                s
            },
            EmbeddingError::InvalidData(msg) => {
                let mut s = "invalid embedding data: ".to_owned();
                s.append(msg.as_str());
                s
            },
        }
    }
}

/// Byte `k` (0 to 3, least significant first) of the word `w`.
pub open spec fn byte_of(w: u32, k: int) -> u8 {
    if k == 0 {
        (w & 0xff) as u8
    } else if k == 1 {
        ((w >> 8u32) & 0xff) as u8
    } else if k == 2 {
        ((w >> 16u32) & 0xff) as u8
    } else {
        ((w >> 24u32) & 0xff) as u8
    }
}

/// The word whose little-endian bytes are `b0`, `b1`, `b2`, `b3`.
pub open spec fn word_of(b0: u8, b1: u8, b2: u8, b3: u8) -> u32 {
    (b0 as u32) | ((b1 as u32) << 8u32) | ((b2 as u32) << 16u32) | ((b3 as u32) << 24u32)
}

/// The bytes of `words`, four little-endian bytes per word.
pub open spec fn encoded_bytes(words: Seq<u32>) -> Seq<u8> {
    Seq::new(4 * words.len(), |i: int| byte_of(words[i / 4], i % 4))
}

/// The words read from `bytes`, four little-endian bytes per word.
pub open spec fn decoded_words(bytes: Seq<u8>) -> Seq<u32> {
    Seq::new(
        bytes.len() / 4,
        |i: int| word_of(bytes[4 * i], bytes[4 * i + 1], bytes[4 * i + 2], bytes[4 * i + 3]),
    )
}

proof fn lemma_word_bytes(w: u32)
    ensures
        word_of(byte_of(w, 0), byte_of(w, 1), byte_of(w, 2), byte_of(w, 3)) == w,
{
    assert(((w & 0xff) as u8 as u32) | ((((w >> 8u32) & 0xff) as u8 as u32) << 8u32) | ((((w
        >> 16u32) & 0xff) as u8 as u32) << 16u32) | ((((w >> 24u32) & 0xff) as u8 as u32) << 24u32)
        == w) by (bit_vector);
}

proof fn lemma_bytes_word(b0: u8, b1: u8, b2: u8, b3: u8)
    ensures
        byte_of(word_of(b0, b1, b2, b3), 0) == b0,
        byte_of(word_of(b0, b1, b2, b3), 1) == b1,
        byte_of(word_of(b0, b1, b2, b3), 2) == b2,
        byte_of(word_of(b0, b1, b2, b3), 3) == b3,
{
    let w = (b0 as u32) | ((b1 as u32) << 8u32) | ((b2 as u32) << 16u32) | ((b3 as u32) << 24u32);
    assert(w == word_of(b0, b1, b2, b3));
    assert((w & 0xff) as u8 == b0) by (bit_vector)
        requires
            w == (b0 as u32) | ((b1 as u32) << 8u32) | ((b2 as u32) << 16u32) | ((b3 as u32) << 24u32),
    ;
    assert(((w >> 8u32) & 0xff) as u8 == b1) by (bit_vector)
        requires
            w == (b0 as u32) | ((b1 as u32) << 8u32) | ((b2 as u32) << 16u32) | ((b3 as u32) << 24u32),
    ;
    assert(((w >> 16u32) & 0xff) as u8 == b2) by (bit_vector)
        requires
            w == (b0 as u32) | ((b1 as u32) << 8u32) | ((b2 as u32) << 16u32) | ((b3 as u32) << 24u32),
    ;
    assert(((w >> 24u32) & 0xff) as u8 == b3) by (bit_vector)
        requires
            w == (b0 as u32) | ((b1 as u32) << 8u32) | ((b2 as u32) << 16u32) | ((b3 as u32) << 24u32),
    ;
}

/// A word is the sum of its four bytes, each weighted by its place, the
/// least significant first: the bytes are the word's little-endian bytes.
pub proof fn lemma_byte_places(w: u32)
    ensures
        w as int == byte_of(w, 0) as int + 256 * (byte_of(w, 1) as int) + 65536 * (byte_of(w, 2) as int) + 16777216
            * (byte_of(w, 3) as int),
{
    assert(w == (w & 0xff) + 256 * ((w >> 8u32) & 0xff) + 65536 * ((w >> 16u32) & 0xff) + 16777216 * ((w
        >> 24u32) & 0xff)) by (bit_vector);
    assert((w & 0xff) < 256 && ((w >> 8u32) & 0xff) < 256 && ((w >> 16u32) & 0xff) < 256 && ((w >> 24u32)
        & 0xff) < 256) by (bit_vector);
}

/// The word read from four bytes is their little-endian value.
pub proof fn lemma_word_places(b0: u8, b1: u8, b2: u8, b3: u8)
    ensures
        word_of(b0, b1, b2, b3) as int == b0 as int + 256 * (b1 as int) + 65536 * (b2 as int) + 16777216 * (b3 as int),
{
    assert((b0 as u32) | ((b1 as u32) << 8u32) | ((b2 as u32) << 16u32) | ((b3 as u32) << 24u32) == (b0 as u32)
        + 256 * (b1 as u32) + 65536 * (b2 as u32) + 16777216 * (b3 as u32)) by (bit_vector);
}

/// Decoding what was encoded gives back the words.
pub proof fn lemma_decode_encode(words: Seq<u32>)
    ensures
        decoded_words(encoded_bytes(words)) == words,
{
    let b = encoded_bytes(words);
    assert forall|i: int| 0 <= i < words.len() implies #[trigger] decoded_words(b)[i] == words[i] by {
        assert(b[4 * i] == byte_of(words[i], 0));
        assert(b[4 * i + 1] == byte_of(words[i], 1));
        assert(b[4 * i + 2] == byte_of(words[i], 2));
        assert(b[4 * i + 3] == byte_of(words[i], 3));
        lemma_word_bytes(words[i]);
    }
    assert(decoded_words(b) =~= words);
}

/// Encoding what was decoded gives back the bytes, when their number is a
/// multiple of four.
pub proof fn lemma_encode_decode(bytes: Seq<u8>)
    requires
        bytes.len() % 4 == 0,
    ensures
        encoded_bytes(decoded_words(bytes)) == bytes,
{
    let w = decoded_words(bytes);
    assert forall|i: int| 0 <= i < bytes.len() implies #[trigger] encoded_bytes(w)[i] == bytes[i] by {
        let q = i / 4;
        let r = i % 4;
        assert(i == 4 * q + r);
        lemma_bytes_word(bytes[4 * q], bytes[4 * q + 1], bytes[4 * q + 2], bytes[4 * q + 3]);
    }
    assert(encoded_bytes(w) =~= bytes);
}

/// Encodes an embedding, given as the bit patterns of its values, as
/// little-endian bytes.
pub fn encode_embedding(embedding: &[u32]) -> (res: Vec<u8>)
    requires
        4 * embedding@.len() <= usize::MAX,
    ensures
        res@ == encoded_bytes(embedding@),
        res@.len() == 4 * embedding@.len(),
        forall|i: int|
            0 <= i < embedding@.len() ==> #[trigger] embedding@[i] as int == res@[4 * i] as int + 256 * (res@[4 * i
                + 1] as int) + 65536 * (res@[4 * i + 2] as int) + 16777216 * (res@[4 * i + 3] as int),
{
    let mut bytes: Vec<u8> = Vec::new();
    let mut i: usize = 0;
    while i < embedding.len()
        invariant
            i <= embedding@.len(),
            4 * embedding@.len() <= usize::MAX,
            bytes@.len() == 4 * i,
            forall|j: int| 0 <= j < 4 * i ==> #[trigger] bytes@[j] == byte_of(embedding@[j / 4], j % 4),
        decreases embedding@.len() - i,
    {
        let w = embedding[i];
        bytes.push((w & 0xff) as u8);
        bytes.push(((w >> 8u32) & 0xff) as u8);
        bytes.push(((w >> 16u32) & 0xff) as u8);
        bytes.push(((w >> 24u32) & 0xff) as u8);
        proof {
            assert forall|j: int| 0 <= j < 4 * (i + 1) implies #[trigger] bytes@[j] == byte_of(embedding@[j / 4], j % 4) by {
                if j >= 4 * i {
                    assert(j / 4 == i);
                }
            }
        }
        i = i + 1;
    }
    assert(bytes@ =~= encoded_bytes(embedding@));
    proof {
        assert forall|i: int| 0 <= i < embedding@.len() implies #[trigger] embedding@[i] as int == bytes@[4 * i] as int
            + 256 * (bytes@[4 * i + 1] as int) + 65536 * (bytes@[4 * i + 2] as int) + 16777216 * (bytes@[4 * i
            + 3] as int) by {
            assert(bytes@[4 * i] == byte_of(embedding@[i], 0));
            assert(bytes@[4 * i + 1] == byte_of(embedding@[i], 1));
            assert(bytes@[4 * i + 2] == byte_of(embedding@[i], 2));
            assert(bytes@[4 * i + 3] == byte_of(embedding@[i], 3));
            lemma_byte_places(embedding@[i]);
        }
    }
    bytes
}

/// The reason an embedding blob of `len` bytes is refused.
pub open spec fn bad_length_text(len: nat) -> Seq<char> {
    "embedding blob length "@ + crate::text::decimal(len) + " is not a multiple of 4"@
}

/// Decodes an embedding from little-endian bytes into the bit patterns of
/// its values; a blob whose length is not a multiple of four is refused.
pub fn decode_embedding(bytes: &[u8]) -> (res: Result<Vec<u32>, EmbeddingError>)
    ensures
        bytes@.len() % 4 == 0 <==> res is Ok,
        res matches Ok(words) ==> words@ == decoded_words(bytes@),
        res matches Ok(words) ==> 4 * words@.len() == bytes@.len() && forall|i: int|
            0 <= i < words@.len() ==> #[trigger] words@[i] as int == bytes@[4 * i] as int + 256 * (bytes@[4 * i
                + 1] as int) + 65536 * (bytes@[4 * i + 2] as int) + 16777216 * (bytes@[4 * i + 3] as int),
        res matches Err(e) ==> (e matches EmbeddingError::InvalidData(msg) && msg@ == bad_length_text(
            bytes@.len(),
        )),
{
    let n = bytes.len();
    if n % 4 != 0 {
        let mut msg = "embedding blob length ".to_owned();
        let digits = crate::text::decimal_string(n);
        msg.append(digits.as_str());
        msg.append(" is not a multiple of 4");
        return Err(EmbeddingError::InvalidData(msg));
    }
    let mut words: Vec<u32> = Vec::new();
    let mut i: usize = 0;
    while i < n / 4
        invariant
            n == bytes@.len(),
            n % 4 == 0,
            i <= n / 4,
            words@.len() == i,
            forall|j: int| 0 <= j < i ==> #[trigger] words@[j] == decoded_words(bytes@)[j],
        decreases n / 4 - i,
    {
        let b0 = bytes[4 * i];
        let b1 = bytes[4 * i + 1];
        let b2 = bytes[4 * i + 2];
        let b3 = bytes[4 * i + 3];
        let w = (b0 as u32) | ((b1 as u32) << 8u32) | ((b2 as u32) << 16u32) | ((b3 as u32) << 24u32);
        words.push(w);
        i = i + 1;
    }
    assert(words@ =~= decoded_words(bytes@));
    proof {
        assert forall|i: int| 0 <= i < words@.len() implies #[trigger] words@[i] as int == bytes@[4 * i] as int + 256
            * (bytes@[4 * i + 1] as int) + 65536 * (bytes@[4 * i + 2] as int) + 16777216 * (bytes@[4 * i
            + 3] as int) by {
            lemma_word_places(bytes@[4 * i], bytes@[4 * i + 1], bytes@[4 * i + 2], bytes@[4 * i + 3]);
        }
    }
    Ok(words)
}

/// The parent directory of a path, as `Path::parent` gives it (`None` for
/// a path that ends in a root or is empty).
pub uninterp spec fn path_parent(p: Seq<char>) -> Option<Seq<char>>;

/// `std::path::Path::parent`: the path without its final component. What
/// it returns depends on the path alone, and is named `path_parent`.
#[verifier::external_body]
fn parent_of(p: &str) -> (res: Option<String>)
    ensures
        match res {
            Some(d) => path_parent(p@) == Some(d@),
            None => path_parent(p@) is None,
        },
{
    std::path::Path::new(p).parent().map(|d| d.to_string_lossy().to_string())
}

/// Where the tokenizer is read from: `WYRD_EMBEDDING_TOKENIZER` when it is
/// set; otherwise `tokenizer.json` next to `WYRD_EMBEDDING_MODEL` (in `.`
/// when the model path has no parent); otherwise nowhere.
pub open spec fn tokenizer_path_rule(tokenizer_env: Option<Seq<char>>, model_env: Option<Seq<char>>) -> Option<
    Seq<char>,
> {
    match tokenizer_env {
        Some(t) => Some(t),
        None => match model_env {
            Some(m) => Some(
                crate::ops::joined_path(
                    match path_parent(m) {
                        Some(d) => d,
                        None => "."@,
                    },
                    "tokenizer.json"@,
                ),
            ),
            None => None,
        },
    }
}

/// The tokenizer path, given the values of `WYRD_EMBEDDING_TOKENIZER` and
/// `WYRD_EMBEDDING_MODEL` (`None` when unset), as `tokenizer_path_rule`
/// states.
pub fn tokenizer_path(tokenizer_env: Option<&str>, model_env: Option<&str>) -> (res: Option<String>)
    ensures
        match tokenizer_path_rule(
            match tokenizer_env {
                Some(t) => Some(t@),
                None => None,
            },
            match model_env {
                Some(m) => Some(m@),
                None => None,
            },
        ) {
            Some(p) => res matches Some(r) && r@ == p,
            None => res is None,
        },
        tokenizer_env matches Some(t) ==> res matches Some(r) && r@ == t@,
        tokenizer_env is None && model_env is None ==> res is None,
        tokenizer_env is None && model_env is Some ==> (res matches Some(r) && r@ == tokenizer_beside(
            model_env->0@,
        )),
{
    proof {
        lemma_tokenizer_path_rule(
            match tokenizer_env {
                Some(t) => Some(t@),
                None => None,
            },
            match model_env {
                Some(m) => Some(m@),
                None => None,
            },
        );
    }
    match tokenizer_env {
        Some(t) => Some(t.to_owned()),
        None => match model_env {
            Some(m) => {
                let dir = match parent_of(m) {
                    Some(d) => d,
                    None => ".".to_owned(),
                };
                Some(crate::ops::resolve_path(dir.as_str(), "tokenizer.json"))
            },
            None => None,
        },
    }
}

/// `tokenizer.json` in the directory that holds the model file `model`:
/// after its parent and a `/` (none after an empty parent or one that
/// already ends in `/`), or `./tokenizer.json` when it has no parent.
pub open spec fn tokenizer_beside(model: Seq<char>) -> Seq<char> {
    match path_parent(model) {
        Some(d) => if d.len() == 0 || d.last() == '/' {
            d + "tokenizer.json"@
        } else {
            d + "/tokenizer.json"@
        },
        None => "./tokenizer.json"@,
    }
}

/// The tokenizer variable, when set, is the path as it stands, whatever the
/// model variable holds; without it the path is `tokenizer.json` beside the
/// model; with neither there is none.
pub proof fn lemma_tokenizer_path_rule(tokenizer_env: Option<Seq<char>>, model_env: Option<Seq<char>>)
    ensures
        tokenizer_env matches Some(t) ==> tokenizer_path_rule(tokenizer_env, model_env) == Some(t),
        tokenizer_env is None && model_env is None ==> tokenizer_path_rule(tokenizer_env, model_env) is None,
        tokenizer_env is None && model_env is Some ==> tokenizer_path_rule(tokenizer_env, model_env) == Some(
            tokenizer_beside(model_env->0),
        ),
{
    reveal_strlit("tokenizer.json");
    reveal_strlit("/tokenizer.json");
    reveal_strlit("./tokenizer.json");
    reveal_strlit(".");
    if tokenizer_env is None && model_env is Some {
        let m = model_env->0;
        let f = "tokenizer.json"@;
        assert(!crate::ops::is_absolute_path(f));
        match path_parent(m) {
            Some(d) => {
                if !(d.len() == 0 || d.last() == '/') {
                    assert(d + seq!['/'] + f =~= d + "/tokenizer.json"@);
                }
            },
            None => {
                assert("."@ + seq!['/'] + f =~= "./tokenizer.json"@);
            },
        }
    }
}

} // verus!
