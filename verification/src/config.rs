//! The settings of the command-line client and of the service daemon, and
//! their byte format: the texts of a configuration one after the other.

use crate::codec::{
    decoding, deserialize, encoded_text, lemma_parsed_text, parsed_text, put_text, serialize,
    take_text, Decodable, Encodable,
};
use crate::error::Error;
use vstd::bytes::lemma_auto_spec_u64_to_from_le_bytes;
use vstd::prelude::*;
use vstd::slice::slice_subrange;
use vstd::string::StringExecFns;
use vstd::utf8::encode_utf8;

verus! {

/// The first `count` texts of `input`, one after the other, and the bytes
/// they take: none where one of them is malformed.
pub open spec fn parsed_texts(input: Seq<u8>, count: nat) -> Option<(Seq<Seq<char>>, nat)>
    decreases count,
{
    if count == 0 {
        Some((Seq::empty(), 0nat))
    } else {
        match parsed_texts(input, (count - 1) as nat) {
            Some((texts, used)) => if used <= input.len() {
                match parsed_text(input.skip(used as int)) {
                    Some((text, more)) => Some((texts.push(text), used + more)),
                    None => None,
                }
            } else {
                None
            },
            None => None,
        }
    }
}

/// The encodings of the texts, one after the other.
pub open spec fn encoded_texts(texts: Seq<Seq<char>>) -> Seq<u8>
    decreases texts.len(),
{
    if texts.len() == 0 {
        Seq::empty()
    } else {
        encoded_texts(texts.drop_last()) + encoded_text(texts.last())
    }
}

/// Whether each text's UTF-8 form is short enough for its length to be
/// written down.
pub open spec fn all_fit(texts: Seq<Seq<char>>) -> bool {
    forall|i: int| 0 <= i < texts.len() ==> encode_utf8(#[trigger] texts[i]).len() <= u64::MAX
}

/// Texts encoded one after the other are read back, whatever follows
/// them.
pub proof fn lemma_parsed_texts(texts: Seq<Seq<char>>, rest: Seq<u8>)
    requires
        all_fit(texts),
    ensures
        parsed_texts(encoded_texts(texts) + rest, texts.len()) == Some(
            (texts, encoded_texts(texts).len()),
        ),
    decreases texts.len(),
{
    if texts.len() > 0 {
        let front = texts.drop_last();
        let last = texts.last();
        let whole = encoded_texts(texts) + rest;
        assert(all_fit(front)) by {
            assert forall|i: int| 0 <= i < front.len() implies encode_utf8(
                #[trigger] front[i],
            ).len() <= u64::MAX by {
                assert(front[i] == texts[i]);
            }
        }
        lemma_parsed_texts(front, encoded_text(last) + rest);
        assert(whole =~= encoded_texts(front) + (encoded_text(last) + rest));
        lemma_parsed_text(last, rest);
        assert(whole.skip(encoded_texts(front).len() as int) =~= encoded_text(last) + rest);
        assert(front.push(last) =~= texts);
    }
}

/// What was read up to some text stays read when more texts are asked
/// for, and never reaches past the input.
pub proof fn lemma_parsed_texts_within(input: Seq<u8>, count: nat)
    ensures
        parsed_texts(input, count) matches Some((texts, used)) ==> used <= input.len()
            && texts.len() == count,
    decreases count,
{
    if count > 0 {
        lemma_parsed_texts_within(input, (count - 1) as nat);
    }
}

/// Reads `count` texts from the front of `input`.
pub fn take_texts(input: &[u8], count: usize) -> (res: Result<(Vec<String>, usize), Error>)
    ensures
        match parsed_texts(input@, count as nat) {
            Some((texts, used)) => res matches Ok((read, n)) && n == used && n <= input@.len()
                && read@.len() == count && forall|i: int|
                0 <= i < count ==> (#[trigger] read@[i])@ == texts[i],
            None => res matches Err(e) && e == Error::DecodeError,
        },
{
    let mut read: Vec<String> = Vec::new();
    let mut at: usize = 0;
    let mut k: usize = 0;
    while k < count
        invariant
            k <= count,
            at <= input@.len(),
            read@.len() == k,
            parsed_texts(input@, k as nat) matches Some((texts, used)) && used == at
                && texts.len() == k && forall|i: int|
                0 <= i < k ==> (#[trigger] read@[i])@ == texts[i],
        decreases count - k,
    {
        let tail: &[u8] = slice_subrange(input, at, input.len());
        assert(tail@ =~= input@.skip(at as int));
        match take_text(tail) {
            Ok((text, used)) => {
                proof {
                    lemma_parsed_texts_within(input@, (k + 1) as nat);
                }
                read.push(text);
                at = at + used;
            },
            Err(e) => {
                proof {
                    lemma_unread_stays_unread(input@, (k + 1) as nat, count as nat);
                }
                return Err(Error::DecodeError);
            },
        }
        k = k + 1;
    }
    Ok((read, at))
}

/// Where a text cannot be read, no longer run of texts can.
pub proof fn lemma_unread_stays_unread(input: Seq<u8>, short: nat, long: nat)
    requires
        short <= long,
        parsed_texts(input, short) is None,
    ensures
        parsed_texts(input, long) is None,
    decreases long,
{
    if short < long {
        lemma_unread_stays_unread(input, short, (long - 1) as nat);
    }
}

/// The settings of the command-line client.
pub struct DrkCliConfig {
    pub rpc_url: String,
    pub log_path: String,
}

/// The settings of the service daemon.
pub struct DarkfidCliConfig {
    pub connect_url: String,
    pub subscriber_url: String,
    pub rpc_url: String,
    pub database_path: String,
    pub log_path: String,
    pub password: String,
}

impl View for DrkCliConfig {
    type V = Seq<Seq<char>>;

    /// The texts in the order in which they are written.
    open spec fn view(&self) -> Seq<Seq<char>> {
        seq![self.rpc_url@, self.log_path@]
    }
}

impl View for DarkfidCliConfig {
    type V = Seq<Seq<char>>;

    /// The texts in the order in which they are written.
    open spec fn view(&self) -> Seq<Seq<char>> {
        seq![
            self.connect_url@,
            self.subscriber_url@,
            self.rpc_url@,
            self.database_path@,
            self.log_path@,
            self.password@,
        ]
    }
}

impl Default for DrkCliConfig {
    fn default() -> (config: DrkCliConfig)
        ensures
            config@ == DrkCliConfig::initial(),
    {
        DrkCliConfig {
            rpc_url: String::from_str("http://127.0.0.1:8000"),
            log_path: String::from_str("/tmp/drk_cli.log"),
        }
    }
}

impl DrkCliConfig {
    /// The settings of a client before anything was saved.
    pub open spec fn initial() -> Seq<Seq<char>> {
        seq!["http://127.0.0.1:8000"@, "/tmp/drk_cli.log"@]
    }
}

impl DarkfidCliConfig {
    /// The settings of a daemon before anything was saved, with its
    /// database at the given place.
    pub open spec fn initial_at(database_path: Seq<char>) -> Seq<Seq<char>> {
        seq![
            "127.0.0.1:3333"@,
            "127.0.0.1:4444"@,
            "127.0.0.1:8000"@,
            database_path,
            "/tmp/darkfid_service_daemon.log"@,
            Seq::<char>::empty(),
        ]
    }

    /// The file name of the daemon's database, to be placed in the
    /// directory that holds the wallet's files.
    pub fn database_file_name() -> (name: String)
        ensures
            name@ == "database_client.db"@,
    {
        String::from_str("database_client.db")
    }

    /// The settings of a daemon before anything was saved. The place of the
    /// database depends on the user, so whoever knows it hands it in.
    pub fn default_at(database_path: String) -> (config: DarkfidCliConfig)
        ensures
            config@ == DarkfidCliConfig::initial_at(database_path@),
    {
        DarkfidCliConfig {
            connect_url: String::from_str("127.0.0.1:3333"),
            subscriber_url: String::from_str("127.0.0.1:4444"),
            rpc_url: String::from_str("127.0.0.1:8000"),
            database_path,
            log_path: String::from_str("/tmp/darkfid_service_daemon.log"),
            password: String::new(),
        }
    }
}

impl Encodable for DrkCliConfig {
    open spec fn encoding(&self) -> Seq<u8> {
        encoded_texts(self@)
    }

    fn encode(&self, out: &mut Vec<u8>) {
        put_text(out, self.rpc_url.as_str());
        put_text(out, self.log_path.as_str());
        proof {
            lemma_encoded_texts_unfold(self@, 2);
            assert(out@ =~= old(out)@ + encoded_texts(self@));
        }
    }
}

impl Encodable for DarkfidCliConfig {
    open spec fn encoding(&self) -> Seq<u8> {
        encoded_texts(self@)
    }

    fn encode(&self, out: &mut Vec<u8>) {
        put_text(out, self.connect_url.as_str());
        put_text(out, self.subscriber_url.as_str());
        put_text(out, self.rpc_url.as_str());
        put_text(out, self.database_path.as_str());
        put_text(out, self.log_path.as_str());
        put_text(out, self.password.as_str());
        proof {
            lemma_encoded_texts_unfold(self@, 6);
            assert(out@ =~= old(out)@ + encoded_texts(self@));
        }
    }
}

/// The encoding of a run of texts is the encoding of each, in order.
pub proof fn lemma_encoded_texts_unfold(texts: Seq<Seq<char>>, upto: nat)
    requires
        upto <= texts.len(),
    ensures
        forall|k: int|
            0 < k <= upto ==> #[trigger] encoded_texts(texts.take(k)) == encoded_texts(
                texts.take(k - 1),
            ) + encoded_text(texts[k - 1]),
        encoded_texts(texts.take(0)) == Seq::<u8>::empty(),
        encoded_texts(texts.take(texts.len() as int)) == encoded_texts(texts),
{
    assert(texts.take(texts.len() as int) =~= texts);
    assert forall|k: int| 0 < k <= upto implies #[trigger] encoded_texts(texts.take(k))
        == encoded_texts(texts.take(k - 1)) + encoded_text(texts[k - 1]) by {
        assert(texts.take(k).drop_last() =~= texts.take(k - 1));
        assert(texts.take(k).last() == texts[k - 1]);
    }
}

impl Decodable for DrkCliConfig {
    open spec fn valid(&self) -> bool {
        all_fit(self@)
    }

    open spec fn parsing(input: Seq<u8>) -> Option<(Seq<Seq<char>>, nat)> {
        parsed_texts(input, 2)
    }

    proof fn lemma_round_trip(&self, rest: Seq<u8>) {
        lemma_parsed_texts(self@, rest);
    }

    fn decode(input: &[u8]) -> (res: Result<(DrkCliConfig, usize), Error>) {
        match take_texts(input, 2) {
            Ok((texts, used)) => {
                let config = DrkCliConfig {
                    rpc_url: texts[0].clone(),
                    log_path: texts[1].clone(),
                };
                let total: usize = input.len();
                proof {
                    lemma_read_texts_fit(input@, 2);
                    lemma_parsed_texts_within(input@, 2);
                    match parsed_texts(input@, 2) {
                        Some((parsed, _)) => {
                            assert(parsed.len() == 2);
                            assert(config@[0] == parsed[0]);
                            assert(config@[1] == parsed[1]);
                            assert(config@ =~= parsed);
                        },
                        None => {},
                    }
                }
                Ok((config, used))
            },
            Err(e) => Err(e),
        }
    }
}

impl Decodable for DarkfidCliConfig {
    open spec fn valid(&self) -> bool {
        all_fit(self@)
    }

    open spec fn parsing(input: Seq<u8>) -> Option<(Seq<Seq<char>>, nat)> {
        parsed_texts(input, 6)
    }

    proof fn lemma_round_trip(&self, rest: Seq<u8>) {
        lemma_parsed_texts(self@, rest);
    }

    fn decode(input: &[u8]) -> (res: Result<(DarkfidCliConfig, usize), Error>) {
        match take_texts(input, 6) {
            Ok((texts, used)) => {
                let config = DarkfidCliConfig {
                    connect_url: texts[0].clone(),
                    subscriber_url: texts[1].clone(),
                    rpc_url: texts[2].clone(),
                    database_path: texts[3].clone(),
                    log_path: texts[4].clone(),
                    password: texts[5].clone(),
                };
                let total: usize = input.len();
                proof {
                    lemma_read_texts_fit(input@, 6);
                    lemma_parsed_texts_within(input@, 6);
                    match parsed_texts(input@, 6) {
                        Some((parsed, _)) => {
                            assert(parsed.len() == 6);
                            assert(config@[0] == parsed[0]);
                            assert(config@[1] == parsed[1]);
                            assert(config@[2] == parsed[2]);
                            assert(config@[3] == parsed[3]);
                            assert(config@[4] == parsed[4]);
                            assert(config@[5] == parsed[5]);
                            assert(config@ =~= parsed);
                        },
                        None => {},
                    }
                }
                Ok((config, used))
            },
            Err(e) => Err(e),
        }
    }
}

/// Texts that were read from a buffer are short enough to be written
/// again.
pub proof fn lemma_read_texts_fit(input: Seq<u8>, count: nat)
    requires
        input.len() <= usize::MAX,
    ensures
        parsed_texts(input, count) matches Some((texts, _)) ==> all_fit(texts),
    decreases count,
{
    if count > 0 {
        lemma_read_texts_fit(input, (count - 1) as nat);
        lemma_parsed_texts_within(input, (count - 1) as nat);
        match parsed_texts(input, (count - 1) as nat) {
            Some((texts, used)) => {
                let tail = input.skip(used as int);
                match parsed_text(tail) {
                    Some((text, _)) => {
                        crate::codec::lemma_text_fits(tail);
                        assert forall|i: int| 0 <= i < texts.push(text).len() implies encode_utf8(
                            #[trigger] texts.push(text)[i],
                        ).len() <= u64::MAX by {
                            if i < texts.len() {
                                assert(texts.push(text)[i] == texts[i]);
                            }
                        }
                    },
                    None => {},
                }
            },
            None => {},
        }
    }
}

/// What the contents of a configuration's file stand for: the settings to
/// fall back on where the file is empty, else what the contents decode
/// to.
pub open spec fn loaded<C: Decodable>(buffer: Seq<u8>, fallback: C::V) -> Option<C::V> {
    if buffer.len() == 0 {
        Some(fallback)
    } else {
        decoding::<C>(buffer)
    }
}

/// A configuration that is kept in a file. An empty file stands for no
/// configuration saved yet.
pub trait ClientCliConfig: Decodable {
    /// No configuration encodes to nothing, so a saved configuration is
    /// never taken for a missing one.
    proof fn lemma_encoding_is_not_empty(&self)
        ensures
            self.encoding().len() > 0,
    ;

    /// The configuration that the contents of its file stand for:
    /// `fallback` where the file is empty.
    fn load(buffer: &[u8], fallback: Self) -> (res: Result<Self, Error>)
        ensures
            match loaded::<Self>(buffer@, fallback@) {
                Some(value) => res matches Ok(config) && config@ == value,
                None => res matches Err(e) && e == Error::DecodeError,
            },
    {
        if buffer.len() == 0 {
            Ok(fallback)
        } else {
            deserialize::<Self>(buffer)
        }
    }

    /// The contents of the file that keeps this configuration.
    fn save(&self) -> (contents: Vec<u8>)
        ensures
            contents@ == self.encoding(),
    {
        serialize(self)
    }
}

/// A run of at least one text encodes to at least the eight bytes of a
/// length.
pub proof fn lemma_encoded_texts_not_empty(texts: Seq<Seq<char>>)
    requires
        texts.len() > 0,
    ensures
        encoded_texts(texts).len() >= 8,
{
    lemma_auto_spec_u64_to_from_le_bytes();
}

impl ClientCliConfig for DrkCliConfig {
    proof fn lemma_encoding_is_not_empty(&self) {
        lemma_encoded_texts_not_empty(self@);
    }
}

impl ClientCliConfig for DarkfidCliConfig {
    proof fn lemma_encoding_is_not_empty(&self) {
        lemma_encoded_texts_not_empty(self@);
    }
}

/// Loading undoes saving: the contents that `save` gives for a
/// configuration stand for that configuration, whatever the settings to
/// fall back on.
pub proof fn law_load_of_save<C: ClientCliConfig>(config: C, fallback: C::V)
    requires
        config.valid(),
    ensures
        loaded::<C>(config.encoding(), fallback) == Some(config@),
{
    config.lemma_encoding_is_not_empty();
    crate::codec::law_round_trip(config);
}

} // verus!
