//! Training a byte-level tokenizer on the texts of training records, for models that start from
//! nothing.

use vstd::prelude::*;
use vstd::string::*;

use crate::json::{self, add_member, string, Json, JsonV};
use crate::sequence;
use crate::text;

verus! {

broadcast use crate::json::lemma_tree;

// ---------------------------------------------------------------------------------------------
// Parts of a tokenizer

/// A byte-pair model.
#[verifier::external_type_specification]
#[verifier::external_body]
pub struct ExBpe(tokenizers::models::bpe::BPE);

/// How a text becomes bytes and bytes become a text.
#[verifier::external_type_specification]
#[verifier::external_body]
pub struct ExByteLevel(tokenizers::pre_tokenizers::byte_level::ByteLevel);

/// A token that is added to a vocabulary as it is.
#[verifier::external_type_specification]
#[verifier::external_body]
pub struct ExAddedToken(tokenizers::AddedToken);

/// What trains a model.
#[verifier::external_type_specification]
#[verifier::external_body]
pub struct ExTrainer(tokenizers::models::TrainerWrapper);

/// Whether making a byte-pair model with this unknown token can come out this way: as a model or
/// as an error message.
pub uninterp spec fn makes_bpe(
    unknown: Seq<char>,
    outcome: Result<tokenizers::models::bpe::BPE, Seq<char>>,
) -> bool;

/// Whether `tok` is a tokenizer made of this model and nothing else.
pub uninterp spec fn starts_from(
    model: tokenizers::models::bpe::BPE,
    tok: tokenizers::Tokenizer,
) -> bool;

/// The byte-level step with these settings: whether a text gets a space in front, whether offsets
/// leave out spaces, and whether words are split.
pub uninterp spec fn byte_level_of(
    prefix_space: bool,
    trim_offsets: bool,
    use_regex: bool,
) -> tokenizers::pre_tokenizers::byte_level::ByteLevel;

/// A tokenizer with this step before its model in place of the one it had.
pub uninterp spec fn splitting_by(
    tok: tokenizers::Tokenizer,
    step: tokenizers::pre_tokenizers::byte_level::ByteLevel,
) -> tokenizers::Tokenizer;

/// A tokenizer that joins its tokens by this step in place of the one it had.
pub uninterp spec fn joining_by(
    tok: tokenizers::Tokenizer,
    step: tokenizers::pre_tokenizers::byte_level::ByteLevel,
) -> tokenizers::Tokenizer;

/// The added token with this text.
pub uninterp spec fn added_token_of(text: Seq<char>, special: bool) -> tokenizers::AddedToken;

/// Whether `trainer` is a trainer of byte-pair models with these settings that has read nothing.
pub uninterp spec fn makes_trainer(
    vocab_size: nat,
    min_frequency: nat,
    show_progress: bool,
    specials: Seq<tokenizers::AddedToken>,
    alphabet: Set<char>,
    trainer: tokenizers::models::TrainerWrapper,
) -> bool;

/// Whether training a tokenizer can come out this way: as a trained tokenizer or as an error
/// message.
pub uninterp spec fn trains(
    start: tokenizers::Tokenizer,
    trainer: tokenizers::models::TrainerWrapper,
    texts: Seq<Seq<char>>,
    outcome: Result<tokenizers::Tokenizer, Seq<char>>,
) -> bool;

/// `tokenizers::models::bpe::BpeBuilder::build` after `unk_token`. All that is claimed is that
/// what comes back is one of the outcomes that this unknown token has.
#[verifier::external_body]
fn make_bpe(unknown: &str) -> (r: Result<tokenizers::models::bpe::BPE, String>)
    ensures
        match r {
            Ok(model) => makes_bpe(unknown@, Ok(model)),
            Err(e) => makes_bpe(unknown@, Err(e@)),
        },
{
    let model = tokenizers::models::bpe::BPE::builder().unk_token(unknown.to_owned()).build();
    model.map_err(|e| e.to_string())
}

/// `tokenizers::Tokenizer::new`: a tokenizer made of this model. Nothing is claimed of it but that
/// it was made so.
#[verifier::external_body]
fn new_tokenizer(model: tokenizers::models::bpe::BPE) -> (tok: tokenizers::Tokenizer)
    ensures
        starts_from(model, tok),
{
    tokenizers::Tokenizer::new(model)
}

/// `tokenizers::pre_tokenizers::byte_level::ByteLevel::new`: the step with these settings, the
/// same for the same settings.
#[verifier::external_body]
fn byte_level(
    prefix_space: bool,
    trim_offsets: bool,
    use_regex: bool,
) -> (step: tokenizers::pre_tokenizers::byte_level::ByteLevel)
    ensures
        step == byte_level_of(prefix_space, trim_offsets, use_regex),
{
    tokenizers::pre_tokenizers::byte_level::ByteLevel::new(prefix_space, trim_offsets, use_regex)
}

/// `tokenizers::Tokenizer::with_pre_tokenizer`: sets the step before the model and nothing else.
#[verifier::external_body]
fn split_by(
    tok: &mut tokenizers::Tokenizer,
    step: tokenizers::pre_tokenizers::byte_level::ByteLevel,
)
    ensures
        *final(tok) == splitting_by(*old(tok), step),
{
    tok.with_pre_tokenizer(Some(step));
}

/// `tokenizers::Tokenizer::with_decoder`: sets the step that joins tokens and nothing else.
#[verifier::external_body]
fn join_by(
    tok: &mut tokenizers::Tokenizer,
    step: tokenizers::pre_tokenizers::byte_level::ByteLevel,
)
    ensures
        *final(tok) == joining_by(*old(tok), step),
{
    tok.with_decoder(Some(step));
}

/// `tokenizers::AddedToken::from`: the token with this text, the same for the same arguments.
#[verifier::external_body]
fn added_token(text: &str, special: bool) -> (t: tokenizers::AddedToken)
    ensures
        t == added_token_of(text@, special),
{
    tokenizers::AddedToken::from(text, special)
}

/// Whether a character stands for a byte: the bytes that print stand for themselves, and the other
/// 68 have the characters from 256 on.
pub open spec fn stands_for_a_byte(c: char) -> bool {
    ||| '!' <= c <= '~'
    ||| 0xa1 <= c as int <= 0xac
    ||| 0xae <= c as int <= 0x143
}

/// `tokenizers::pre_tokenizers::byte_level::ByteLevel::alphabet`: the characters that stand for a
/// byte, each once. Their order is left open.
#[verifier::external_body]
fn alphabet() -> (r: Vec<char>)
    ensures
        r@.no_duplicates(),
        forall|c: char| #[trigger] r@.contains(c) <==> stands_for_a_byte(c),
{
    tokenizers::pre_tokenizers::byte_level::ByteLevel::alphabet().into_iter().collect()
}

/// `tokenizers::models::bpe::BpeTrainerBuilder::build` after the settings that the arguments name.
/// Nothing is claimed of the trainer but that it has these settings.
#[verifier::external_body]
fn make_trainer(
    vocab_size: usize,
    min_frequency: u64,
    show_progress: bool,
    specials: Vec<tokenizers::AddedToken>,
    alphabet: Vec<char>,
) -> (trainer: tokenizers::models::TrainerWrapper)
    ensures
        makes_trainer(
            vocab_size as nat,
            min_frequency as nat,
            show_progress,
            specials@,
            alphabet@.to_set(),
            trainer,
        ),
{
    tokenizers::models::bpe::BpeTrainerBuilder::new()
        .vocab_size(vocab_size)
        .min_frequency(min_frequency)
        .show_progress(show_progress)
        .special_tokens(specials)
        .initial_alphabet(alphabet.into_iter().collect())
        .build()
        .into()
}

/// Whether the vocabulary of a trainer is so small that room for it can be asked for.
pub open spec fn can_train(trainer: tokenizers::models::TrainerWrapper) -> bool {
    exists|n: nat, f: nat, p: bool, specials: Seq<tokenizers::AddedToken>, alphabet: Set<char>|
        n <= u32::MAX && #[trigger] makes_trainer(n, f, p, specials, alphabet, trainer)
}

/// Whether a tokenizer has every one of these tokens that is not empty.
pub open spec fn knows(
    tok: tokenizers::Tokenizer,
    specials: Seq<tokenizers::AddedToken>,
) -> bool {
    forall|text: Seq<char>, special: bool|
        text.len() > 0 && specials.contains(#[trigger] added_token_of(text, special))
            ==> sequence::id_of(tok, text) is Some
}

/// `tokenizers::Tokenizer::train` on texts. What comes back is one of the outcomes that these
/// arguments have, and a trained tokenizer knows every special token of its trainer that is not
/// empty. Which other tokens it has learned is left open.
#[verifier::external_body]
fn train(
    tok: &mut tokenizers::Tokenizer,
    trainer: &mut tokenizers::models::TrainerWrapper,
    texts: Vec<String>,
) -> (r: Result<(), String>)
    requires
        can_train(*old(trainer)),
    ensures
        match r {
            Ok(_) => {
                &&& trains(*old(tok), *old(trainer), text::texts(texts@), Ok(*final(tok)))
                &&& forall|
                    n: nat,
                    f: nat,
                    p: bool,
                    specials: Seq<tokenizers::AddedToken>,
                    alphabet: Set<char>,
                | #[trigger]
                    makes_trainer(n, f, p, specials, alphabet, *old(trainer)) ==> knows(
                        *final(tok),
                        specials,
                    )
            },
            Err(e) => trains(*old(tok), *old(trainer), text::texts(texts@), Err(e@)),
        },
{
    match tok.train(trainer, texts.into_iter()) {
        Ok(_) => Ok(()),
        Err(e) => Err(e.to_string()),
    }
}

// ---------------------------------------------------------------------------------------------
// Training

/// The special tokens of a tokenizer trained here.
pub open spec fn special_tokens() -> Seq<Seq<char>> {
    seq!["[UNK]"@, "[CLS]"@, "[SEP]"@, "[PAD]"@, "[MASK]"@]
}

/// How often a pair must occur to become a token.
pub const MIN_FREQUENCY: u64 = 2;

/// Whether `tok` is a tokenizer as training finds it: an empty byte-pair model with an unknown
/// token, on words of bytes without a space in front.
pub open spec fn is_untrained(tok: tokenizers::Tokenizer) -> bool {
    exists|model: tokenizers::models::bpe::BPE, start: tokenizers::Tokenizer|
        {
            &&& makes_bpe("[UNK]"@, Ok(model))
            &&& #[trigger] starts_from(model, start)
            &&& tok == joining_by(
                splitting_by(start, byte_level_of(false, true, true)),
                byte_level_of(true, true, true),
            )
        }
}

/// Whether `trainer` is the trainer for a vocabulary of this size: it starts from the special
/// tokens and every byte, and says nothing while it works.
pub open spec fn is_trainer(
    vocab_size: usize,
    trainer: tokenizers::models::TrainerWrapper,
) -> bool {
    makes_trainer(
        vocab_size as nat,
        MIN_FREQUENCY as nat,
        false,
        Seq::new(special_tokens().len(), |i: int| added_token_of(special_tokens()[i], true)),
        Set::new(|c: char| stands_for_a_byte(c)),
        trainer,
    )
}

/// An untrained tokenizer; the error is a message.
fn untrained() -> (r: Result<tokenizers::Tokenizer, String>)
    ensures
        match r {
            Ok(tok) => is_untrained(tok),
            Err(m) => makes_bpe("[UNK]"@, Err(m@)),
        },
{
    let model = match make_bpe("[UNK]") {
        Ok(model) => model,
        Err(e) => return Err(e),
    };
    let mut tok = new_tokenizer(model);
    split_by(&mut tok, byte_level(false, true, true));
    join_by(&mut tok, byte_level(true, true, true));
    Ok(tok)
}

/// A tokenizer trained on texts; the error is a message.
pub fn train_tokenizer(texts: Vec<String>, vocab_size: usize) -> (r: Result<
    tokenizers::Tokenizer,
    String,
>)
    requires
        vocab_size <= u32::MAX,
    ensures
        match r {
            Ok(tok) => {
                &&& exists|
                    start: tokenizers::Tokenizer,
                    trainer: tokenizers::models::TrainerWrapper,
                |
                    is_untrained(start) && is_trainer(vocab_size, trainer) && #[trigger] trains(
                        start,
                        trainer,
                        text::texts(texts@),
                        Ok(tok),
                    )
                &&& forall|i: int|
                    0 <= i < special_tokens().len() ==> sequence::id_of(
                        tok,
                        #[trigger] special_tokens()[i],
                    ) is Some
            },
            Err(m) => {
                ||| makes_bpe("[UNK]"@, Err(m@))
                ||| exists|
                    start: tokenizers::Tokenizer,
                    trainer: tokenizers::models::TrainerWrapper,
                    e: Seq<char>,
                |
                    is_untrained(start) && is_trainer(vocab_size, trainer) && #[trigger] trains(
                        start,
                        trainer,
                        text::texts(texts@),
                        Err(e),
                    ) && m@ == "training tokenizer: "@ + e
            },
        },
{
    let mut tok = match untrained() {
        Ok(tok) => tok,
        Err(e) => return Err(e),
    };
    let mut specials: Vec<tokenizers::AddedToken> = Vec::new();
    specials.push(added_token("[UNK]", true));
    specials.push(added_token("[CLS]", true));
    specials.push(added_token("[SEP]", true));
    specials.push(added_token("[PAD]", true));
    specials.push(added_token("[MASK]", true));
    let ghost added = specials@;
    let bytes = alphabet();
    proof {
        assert(specials@ =~= Seq::new(
            special_tokens().len(),
            |i: int| added_token_of(special_tokens()[i], true),
        ));
        assert(bytes@.to_set() =~= Set::new(|c: char| stands_for_a_byte(c)));
        reveal_strlit("[UNK]");
        reveal_strlit("[CLS]");
        reveal_strlit("[SEP]");
        reveal_strlit("[PAD]");
        reveal_strlit("[MASK]");
    }
    let mut trainer = make_trainer(vocab_size, MIN_FREQUENCY, false, specials, bytes);
    proof {
        assert(is_trainer(vocab_size, trainer));
    }
    match train(&mut tok, &mut trainer, texts) {
        Ok(_) => {
            proof {
                assert(knows(tok, added));
                assert forall|i: int| 0 <= i < special_tokens().len() implies sequence::id_of(
                    tok,
                    #[trigger] special_tokens()[i],
                ) is Some by {
                    assert(added[i] == added_token_of(special_tokens()[i], true));
                    assert(added.contains(added_token_of(special_tokens()[i], true)));
                }
            }
            Ok(tok)
        },
        Err(e) => {
            let mut m = "training tokenizer: ".to_owned();
            m.append(e.as_str());
            Err(m)
        },
    }
}

/// The settings that stand beside a tokenizer trained here: the names of its special tokens.
pub open spec fn settings() -> JsonV {
    JsonV::Object(
        seq![
            ("cls_token"@, JsonV::String("[CLS]"@)),
            ("sep_token"@, JsonV::String("[SEP]"@)),
            ("pad_token"@, JsonV::String("[PAD]"@)),
            ("mask_token"@, JsonV::String("[MASK]"@)),
            ("unk_token"@, JsonV::String("[UNK]"@)),
        ],
    )
}

/// The settings that stand beside a tokenizer trained here.
pub fn tokenizer_config() -> (r: Json)
    ensures
        r@ == settings(),
{
    let mut o: Vec<(String, Json)> = Vec::new();
    add_member(&mut o, "cls_token", string("[CLS]"));
    add_member(&mut o, "sep_token", string("[SEP]"));
    add_member(&mut o, "pad_token", string("[PAD]"));
    add_member(&mut o, "mask_token", string("[MASK]"));
    add_member(&mut o, "unk_token", string("[UNK]"));
    proof {
        assert(json::members(o@) =~= settings()->Object_0);
    }
    Json::Object(o)
}

/// A tokenizer trained here, with its settings, has every token that rows are built with.
pub proof fn lemma_trained_tokenizers_have_their_specials(tok: tokenizers::Tokenizer)
    requires
        forall|i: int|
            0 <= i < special_tokens().len() ==> sequence::id_of(
                tok,
                #[trigger] special_tokens()[i],
            ) is Some,
    ensures
        sequence::id_of(
            tok,
            sequence::token_named(Some(settings()), "cls_token"@, "[CLS]"@),
        ) is Some,
        sequence::id_of(
            tok,
            sequence::token_named(Some(settings()), "sep_token"@, "[SEP]"@),
        ) is Some,
        sequence::id_of(
            tok,
            sequence::token_named(Some(settings()), "mask_token"@, "[MASK]"@),
        ) is Some,
        sequence::id_of(
            tok,
            sequence::token_named(Some(settings()), "pad_token"@, "[PAD]"@),
        ) is Some,
{
    let o = settings()->Object_0;
    reveal_strlit("cls_token");
    reveal_strlit("sep_token");
    reveal_strlit("pad_token");
    reveal_strlit("mask_token");
    assert("cls_token"@[0] == 'c');
    assert("sep_token"@[0] == 's');
    assert("pad_token"@[0] == 'p');
    assert("mask_token"@[0] == 'm');
    json::lemma_key_at_is(o, "cls_token"@, 0);
    json::lemma_key_at_is(o, "sep_token"@, 1);
    json::lemma_key_at_is(o, "pad_token"@, 2);
    json::lemma_key_at_is(o, "mask_token"@, 3);
    assert(special_tokens()[1] == "[CLS]"@);
    assert(special_tokens()[2] == "[SEP]"@);
    assert(special_tokens()[3] == "[PAD]"@);
    assert(special_tokens()[4] == "[MASK]"@);
}

} // verus!
