//! The capabilities that a server declares: a flat list of tokens, read
//! into flags and fields, and kept in order for sending them back.
use crate::text::{
    ascii_edge, bytes_eq, encodings, find, find_byte, join_with_space, joined, starts_with,
    str_encodings, substr,
};
use vstd::prelude::*;
use vstd::string::*;
use vstd::utf8::*;

verus! {

/// What a list of capability tokens says.
#[derive(Debug)]
pub struct Capabilities {
    pub multi_ack: bool,
    pub multi_ack_detailed: bool,
    pub thin_pack: bool,
    pub side_band: bool,
    pub side_band_64k: bool,
    pub ofs_delta: bool,
    pub shallow: bool,
    pub no_progress: bool,
    pub include_tag: bool,
    pub allow_tip_sha1_in_want: bool,
    pub allow_reachable_sha1_in_want: bool,
    pub no_done: bool,
    /// The last `symref=<from>:<to>`.
    pub symref: Option<(String, String)>,
    /// The last `agent=<string>`.
    pub agent: Option<String>,
    /// The last `object-format=<name>`.
    pub object_format: Option<String>,
    /// The tokens that are none of the above, in order.
    pub other: Vec<String>,
    /// Every token, in the order in which it was read.
    pub all_caps: Vec<String>,
}

/// What a list of capability tokens says, as a mathematical value in
/// which each text stands as its bytes.
pub struct CapsModel {
    pub multi_ack: bool,
    pub multi_ack_detailed: bool,
    pub thin_pack: bool,
    pub side_band: bool,
    pub side_band_64k: bool,
    pub ofs_delta: bool,
    pub shallow: bool,
    pub no_progress: bool,
    pub include_tag: bool,
    pub allow_tip_sha1_in_want: bool,
    pub allow_reachable_sha1_in_want: bool,
    pub no_done: bool,
    pub symref: Option<(Seq<u8>, Seq<u8>)>,
    pub agent: Option<Seq<u8>>,
    pub object_format: Option<Seq<u8>>,
    pub other: Seq<Seq<u8>>,
}

/// What the empty list of tokens says.
pub open spec fn no_caps() -> CapsModel {
    CapsModel {
        multi_ack: false,
        multi_ack_detailed: false,
        thin_pack: false,
        side_band: false,
        side_band_64k: false,
        ofs_delta: false,
        shallow: false,
        no_progress: false,
        include_tag: false,
        allow_tip_sha1_in_want: false,
        allow_reachable_sha1_in_want: false,
        no_done: false,
        symref: None,
        agent: None,
        object_format: None,
        other: Seq::empty(),
    }
}

/// What a `symref=` token sets, given what follows the equals sign: the
/// parts before and after the first colon, or nothing without a colon.
pub open spec fn symref_of(rest: Seq<u8>) -> Option<(Seq<u8>, Seq<u8>)> {
    let colon = find(rest, 58);
    if colon < rest.len() {
        Some((rest.subrange(0, colon), rest.subrange(colon + 1, rest.len() as int)))
    } else {
        None
    }
}

/// The capabilities that are plain flags.
#[derive(Debug, Clone, Copy, PartialEq, Eq, Structural)]
pub enum CapFlag {
    MultiAck,
    MultiAckDetailed,
    ThinPack,
    SideBand,
    SideBand64k,
    OfsDelta,
    Shallow,
    NoProgress,
    IncludeTag,
    AllowTipSha1InWant,
    AllowReachableSha1InWant,
    NoDone,
}

/// The flag that a token names, if it names one.
pub open spec fn flag_of(t: Seq<u8>) -> Option<CapFlag> {
    if t == "multi_ack".spec_bytes() {
        Some(CapFlag::MultiAck)
    } else if t == "multi_ack_detailed".spec_bytes() {
        Some(CapFlag::MultiAckDetailed)
    } else if t == "thin-pack".spec_bytes() {
        Some(CapFlag::ThinPack)
    } else if t == "side-band".spec_bytes() {
        Some(CapFlag::SideBand)
    } else if t == "side-band-64k".spec_bytes() {
        Some(CapFlag::SideBand64k)
    } else if t == "ofs-delta".spec_bytes() {
        Some(CapFlag::OfsDelta)
    } else if t == "shallow".spec_bytes() {
        Some(CapFlag::Shallow)
    } else if t == "no-progress".spec_bytes() {
        Some(CapFlag::NoProgress)
    } else if t == "include-tag".spec_bytes() {
        Some(CapFlag::IncludeTag)
    } else if t == "allow-tip-sha1-in-want".spec_bytes() {
        Some(CapFlag::AllowTipSha1InWant)
    } else if t == "allow-reachable-sha1-in-want".spec_bytes() {
        Some(CapFlag::AllowReachableSha1InWant)
    } else if t == "no-done".spec_bytes() {
        Some(CapFlag::NoDone)
    } else {
        None
    }
}

/// The capabilities with one flag set.
pub open spec fn with_flag(m: CapsModel, flag: CapFlag) -> CapsModel {
    match flag {
        CapFlag::MultiAck => CapsModel { multi_ack: true, ..m },
        CapFlag::MultiAckDetailed => CapsModel { multi_ack_detailed: true, ..m },
        CapFlag::ThinPack => CapsModel { thin_pack: true, ..m },
        CapFlag::SideBand => CapsModel { side_band: true, ..m },
        CapFlag::SideBand64k => CapsModel { side_band_64k: true, ..m },
        CapFlag::OfsDelta => CapsModel { ofs_delta: true, ..m },
        CapFlag::Shallow => CapsModel { shallow: true, ..m },
        CapFlag::NoProgress => CapsModel { no_progress: true, ..m },
        CapFlag::IncludeTag => CapsModel { include_tag: true, ..m },
        CapFlag::AllowTipSha1InWant => CapsModel { allow_tip_sha1_in_want: true, ..m },
        CapFlag::AllowReachableSha1InWant => CapsModel { allow_reachable_sha1_in_want: true, ..m },
        CapFlag::NoDone => CapsModel { no_done: true, ..m },
    }
}

/// What follows a prefix in a token that begins with it.
pub open spec fn value_after(t: Seq<u8>, prefix: Seq<u8>) -> Option<Seq<u8>> {
    if prefix.is_prefix_of(t) {
        Some(t.skip(prefix.len() as int))
    } else {
        None
    }
}

/// What one more token changes: a flag is set; `symref=` with a colon
/// after it, `agent=` and `object-format=` set their field; a `symref=`
/// without a colon changes nothing; any other token joins the others.
pub open spec fn with_token(m: CapsModel, t: Seq<u8>) -> CapsModel {
    if let Some(flag) = flag_of(t) {
        with_flag(m, flag)
    } else if let Some(rest) = value_after(t, "symref=".spec_bytes()) {
        match symref_of(rest) {
            Some(pair) => CapsModel { symref: Some(pair), ..m },
            None => m,
        }
    } else if let Some(value) = value_after(t, "agent=".spec_bytes()) {
        CapsModel { agent: Some(value), ..m }
    } else if let Some(value) = value_after(t, "object-format=".spec_bytes()) {
        CapsModel { object_format: Some(value), ..m }
    } else {
        CapsModel { other: m.other.push(t), ..m }
    }
}

/// What a list of tokens says: each token applied in turn.
pub open spec fn caps_of(tokens: Seq<Seq<u8>>) -> CapsModel
    decreases tokens.len(),
{
    if tokens.len() == 0 {
        no_caps()
    } else {
        with_token(caps_of(tokens.drop_last()), tokens.last())
    }
}

/// The bytes of an optional text.
pub open spec fn opt_encoding(s: Option<String>) -> Option<Seq<u8>> {
    match s {
        Some(text) => Some(encode_utf8(text@)),
        None => None,
    }
}

impl View for Capabilities {
    type V = CapsModel;

    open spec fn view(&self) -> CapsModel {
        CapsModel {
            multi_ack: self.multi_ack,
            multi_ack_detailed: self.multi_ack_detailed,
            thin_pack: self.thin_pack,
            side_band: self.side_band,
            side_band_64k: self.side_band_64k,
            ofs_delta: self.ofs_delta,
            shallow: self.shallow,
            no_progress: self.no_progress,
            include_tag: self.include_tag,
            allow_tip_sha1_in_want: self.allow_tip_sha1_in_want,
            allow_reachable_sha1_in_want: self.allow_reachable_sha1_in_want,
            no_done: self.no_done,
            symref: match self.symref {
                Some(pair) => Some((encode_utf8(pair.0@), encode_utf8(pair.1@))),
                None => None,
            },
            agent: opt_encoding(self.agent),
            object_format: opt_encoding(self.object_format),
            other: encodings(self.other@),
        }
    }
}

impl Default for Capabilities {
    fn default() -> (caps: Self)
        ensures
            caps@ == no_caps(),
            caps.tokens() == Seq::<Seq<u8>>::empty(),
    {
        let caps = Capabilities {
            multi_ack: false,
            multi_ack_detailed: false,
            thin_pack: false,
            side_band: false,
            side_band_64k: false,
            ofs_delta: false,
            shallow: false,
            no_progress: false,
            include_tag: false,
            allow_tip_sha1_in_want: false,
            allow_reachable_sha1_in_want: false,
            no_done: false,
            symref: None,
            agent: None,
            object_format: None,
            other: Vec::new(),
            all_caps: Vec::new(),
        };
        assert(caps@.other =~= Seq::<Seq<u8>>::empty());
        assert(caps.tokens() =~= Seq::<Seq<u8>>::empty());
        caps
    }
}

impl Capabilities {
    /// The tokens that this value was read from, in their order.
    pub open spec fn tokens(&self) -> Seq<Seq<u8>> {
        encodings(self.all_caps@)
    }

    /// The tokens as they go on the wire: in the order in which they were
    /// read, with single spaces between them.
    pub fn to_git_line(&self) -> (line: String)
        ensures
            encode_utf8(line@) == joined(self.tokens(), 32),
    {
        join_with_space(&self.all_caps)
    }

    /// Sets one flag.
    #[verifier::rlimit(60)]
    fn set_flag(&mut self, flag: CapFlag)
        ensures
            final(self)@ == with_flag(old(self)@, flag),
            final(self).all_caps == old(self).all_caps,
    {
        match flag {
            CapFlag::MultiAck => {
                self.multi_ack = true;
            },
            CapFlag::MultiAckDetailed => {
                self.multi_ack_detailed = true;
            },
            CapFlag::ThinPack => {
                self.thin_pack = true;
            },
            CapFlag::SideBand => {
                self.side_band = true;
            },
            CapFlag::SideBand64k => {
                self.side_band_64k = true;
            },
            CapFlag::OfsDelta => {
                self.ofs_delta = true;
            },
            CapFlag::Shallow => {
                self.shallow = true;
            },
            CapFlag::NoProgress => {
                self.no_progress = true;
            },
            CapFlag::IncludeTag => {
                self.include_tag = true;
            },
            CapFlag::AllowTipSha1InWant => {
                self.allow_tip_sha1_in_want = true;
            },
            CapFlag::AllowReachableSha1InWant => {
                self.allow_reachable_sha1_in_want = true;
            },
            CapFlag::NoDone => {
                self.no_done = true;
            },
        }
    }

    /// Takes in a token that names no flag.
    fn take_field(&mut self, cap: &str)
        requires
            flag_of(cap.spec_bytes()) is None,
        ensures
            final(self)@ == with_token(old(self)@, cap.spec_bytes()),
            final(self).all_caps == old(self).all_caps,
    {
        let ghost t = cap.spec_bytes();
        if let Some(rest) = text_after(cap, "symref=") {
            if let Some(pair) = split_symref(rest.as_str()) {
                self.symref = Some(pair);
            }
        } else if let Some(value) = text_after(cap, "agent=") {
            self.agent = Some(value);
        } else if let Some(value) = text_after(cap, "object-format=") {
            self.object_format = Some(value);
        } else {
            let ghost others = self@.other;
            self.other.push(cap.to_owned());
            assert(self@.other =~= others.push(t));
        }
    }

    /// Takes one more token in.
    fn take(&mut self, cap: &str)
        ensures
            final(self)@ == with_token(old(self)@, cap.spec_bytes()),
            final(self).tokens() == old(self).tokens().push(cap.spec_bytes()),
    {
        let ghost all = self.tokens();
        match flag_named(cap.as_bytes()) {
            Some(flag) => self.set_flag(flag),
            None => self.take_field(cap),
        }
        self.all_caps.push(cap.to_owned());
        assert(self.tokens() =~= all.push(cap.spec_bytes()));
    }
}

/// The flag that a token names.
fn flag_named(bytes: &[u8]) -> (flag: Option<CapFlag>)
    ensures
        flag == flag_of(bytes@),
{
    if bytes_eq(bytes, "multi_ack".as_bytes()) {
        Some(CapFlag::MultiAck)
    } else if bytes_eq(bytes, "multi_ack_detailed".as_bytes()) {
        Some(CapFlag::MultiAckDetailed)
    } else if bytes_eq(bytes, "thin-pack".as_bytes()) {
        Some(CapFlag::ThinPack)
    } else if bytes_eq(bytes, "side-band".as_bytes()) {
        Some(CapFlag::SideBand)
    } else if bytes_eq(bytes, "side-band-64k".as_bytes()) {
        Some(CapFlag::SideBand64k)
    } else if bytes_eq(bytes, "ofs-delta".as_bytes()) {
        Some(CapFlag::OfsDelta)
    } else if bytes_eq(bytes, "shallow".as_bytes()) {
        Some(CapFlag::Shallow)
    } else if bytes_eq(bytes, "no-progress".as_bytes()) {
        Some(CapFlag::NoProgress)
    } else if bytes_eq(bytes, "include-tag".as_bytes()) {
        Some(CapFlag::IncludeTag)
    } else if bytes_eq(bytes, "allow-tip-sha1-in-want".as_bytes()) {
        Some(CapFlag::AllowTipSha1InWant)
    } else if bytes_eq(bytes, "allow-reachable-sha1-in-want".as_bytes()) {
        Some(CapFlag::AllowReachableSha1InWant)
    } else if bytes_eq(bytes, "no-done".as_bytes()) {
        Some(CapFlag::NoDone)
    } else {
        None
    }
}

/// What follows one of the three prefixes in a token that begins with it.
fn text_after(cap: &str, prefix: &str) -> (value: Option<String>)
    requires
        prefix@ == "symref="@ || prefix@ == "agent="@ || prefix@ == "object-format="@,
    ensures
        opt_encoding(value) == value_after(cap.spec_bytes(), prefix.spec_bytes()),
{
    let bytes = cap.as_bytes();
    let ghost t = cap.spec_bytes();
    if starts_with(bytes, prefix.as_bytes()) {
        let from = prefix.as_bytes().len();
        proof {
            lemma_after_prefix(t, prefix);
        }
        let value = substr(cap, from, bytes.len());
        assert(t.subrange(from as int, t.len() as int) =~= t.skip(from as int));
        Some(value)
    } else {
        None
    }
}

/// The two sides of the first colon of a text, if it holds one.
fn split_symref(rest: &str) -> (pair: Option<(String, String)>)
    ensures
        (match pair {
            Some(p) => Some((encode_utf8(p.0@), encode_utf8(p.1@))),
            None => None,
        }) == symref_of(rest.spec_bytes()),
{
    let bytes = rest.as_bytes();
    let colon = find_byte(bytes, 58);
    if colon < bytes.len() {
        let source = substr(rest, 0, colon);
        let target = substr(rest, colon + 1, bytes.len());
        Some((source, target))
    } else {
        None
    }
}

/// The end of a prefix that ends in an equals sign is a place where the
/// text can be cut.
proof fn lemma_after_prefix(t: Seq<u8>, prefix: &str)
    requires
        prefix.spec_bytes().is_prefix_of(t),
        prefix@ == "symref="@ || prefix@ == "agent="@ || prefix@ == "object-format="@,
    ensures
        0 < prefix.spec_bytes().len() <= t.len(),
        ascii_edge(t, prefix.spec_bytes().len() as int),
        ascii_edge(t, t.len() as int),
{
    reveal_strlit("symref=");
    reveal_strlit("agent=");
    reveal_strlit("object-format=");
    is_ascii_chars_encode_utf8(prefix@);
    let p = prefix.spec_bytes();
    let n = p.len() as int;
    assert(p[n - 1] == 61);
    assert(t[n - 1] == p[n - 1]);
}

/// Reads a list of capability tokens.
pub fn parse_capabilities(cap_strings: Vec<&str>) -> (caps: Capabilities)
    ensures
        caps@ == caps_of(str_encodings(cap_strings@)),
        caps.tokens() == str_encodings(cap_strings@),
{
    let mut caps = Capabilities::default();
    let mut i: usize = 0;
    let ghost all = str_encodings(cap_strings@);
    proof {
        assert(all.take(0) =~= Seq::<Seq<u8>>::empty());
    }
    while i < cap_strings.len()
        invariant
            i <= cap_strings@.len(),
            all == str_encodings(cap_strings@),
            caps@ == caps_of(all.take(i as int)),
            caps.tokens() == all.take(i as int),
        decreases cap_strings@.len() - i,
    {
        proof {
            assert(all.take(i + 1).drop_last() =~= all.take(i as int));
            assert(all.take(i + 1).last() == cap_strings@[i as int].spec_bytes());
            assert(all.take(i + 1) =~= all.take(i as int).push(cap_strings@[i as int].spec_bytes()));
        }
        caps.take(cap_strings[i]);
        i += 1;
    }
    assert(all.take(i as int) =~= all);
    caps
}

/// The wire form keeps the order of the tokens: the line made from what a
/// list of tokens was read into is the tokens with single spaces between
/// them.
pub proof fn law_wire_form_keeps_order(caps: Capabilities, tokens: Seq<Seq<u8>>, line: Seq<u8>)
    requires
        caps.tokens() == tokens,
        line == joined(caps.tokens(), 32),
    ensures
        line == joined(tokens, 32),
{
}

/// Whether a flag is set.
pub open spec fn has_flag(m: CapsModel, flag: CapFlag) -> bool {
    match flag {
        CapFlag::MultiAck => m.multi_ack,
        CapFlag::MultiAckDetailed => m.multi_ack_detailed,
        CapFlag::ThinPack => m.thin_pack,
        CapFlag::SideBand => m.side_band,
        CapFlag::SideBand64k => m.side_band_64k,
        CapFlag::OfsDelta => m.ofs_delta,
        CapFlag::Shallow => m.shallow,
        CapFlag::NoProgress => m.no_progress,
        CapFlag::IncludeTag => m.include_tag,
        CapFlag::AllowTipSha1InWant => m.allow_tip_sha1_in_want,
        CapFlag::AllowReachableSha1InWant => m.allow_reachable_sha1_in_want,
        CapFlag::NoDone => m.no_done,
    }
}

/// Whether one of the tokens names a flag.
pub open spec fn names_flag(tokens: Seq<Seq<u8>>, flag: CapFlag) -> bool {
    exists|i: int| 0 <= i < tokens.len() && flag_of(#[trigger] tokens[i]) == Some(flag)
}

/// One more token sets the flag that it names and leaves the other flags
/// as they are.
proof fn lemma_token_and_flag(m: CapsModel, t: Seq<u8>, flag: CapFlag)
    ensures
        has_flag(with_token(m, t), flag) == (has_flag(m, flag) || flag_of(t) == Some(flag)),
{
}

/// A flag is set exactly where a token names it.
pub proof fn law_flag_set_iff_named(tokens: Seq<Seq<u8>>, flag: CapFlag)
    ensures
        has_flag(caps_of(tokens), flag) <==> names_flag(tokens, flag),
    decreases tokens.len(),
{
    if tokens.len() == 0 {
    } else {
        let init = tokens.drop_last();
        law_flag_set_iff_named(init, flag);
        lemma_token_and_flag(caps_of(init), tokens.last(), flag);
        if names_flag(init, flag) {
            let i = choose|i: int| 0 <= i < init.len() && flag_of(#[trigger] init[i]) == Some(flag);
            assert(tokens[i] == init[i]);
        }
        if flag_of(tokens.last()) == Some(flag) {
            assert(flag_of(tokens[tokens.len() - 1]) == Some(flag));
        }
        if names_flag(tokens, flag) {
            let i = choose|i: int|
                0 <= i < tokens.len() && flag_of(#[trigger] tokens[i]) == Some(flag);
            if i < init.len() {
                assert(init[i] == tokens[i]);
            }
        }
    }
}

} // verus!
