//! The packed rule payload: a `raw:` prefix and base64 text, or base64 of gzip.

use vstd::prelude::*;
use vstd::utf8::{decode_utf8, encode_utf8_decode_utf8, encode_utf8_valid_utf8, valid_utf8};
use base64::Engine;
use crate::engine::{names_unique, rule_position, RuleEngine};
use crate::rules::{BackendConfig, Rule};
use crate::text::{is_prefix, same_text, starts_with};

verus! {

#[verifier::external_type_specification]
#[verifier::external_body]
pub struct ExDecodeError(base64::DecodeError);

#[verifier::external_type_specification]
#[verifier::external_body]
pub struct ExIoError(std::io::Error);

/// The bytes that standard base64 decoding yields for a text; `None` where it fails.
pub uninterp spec fn base64_decoded(s: Seq<char>) -> Option<Seq<u8>>;

/// The text that gzip decompression yields for some bytes; `None` where the
/// stream is not gzip or does not decompress to UTF-8.
pub uninterp spec fn gunzipped(b: Seq<u8>) -> Option<Seq<char>>;

/// Relies on `base64::engine::general_purpose::STANDARD.decode`.
#[verifier::external_body]
fn base64_decode(s: &str) -> (r: Result<Vec<u8>, base64::DecodeError>)
    ensures
        match base64_decoded(s@) {
            Some(b) => r is Ok && r->Ok_0@ == b,
            None => r is Err,
        },
{
    base64::engine::general_purpose::STANDARD.decode(s)
}

/// Relies on `flate2::read::GzDecoder` read through `std::io::Read::read_to_string`.
#[verifier::external_body]
fn gunzip_text(b: &[u8]) -> (r: Result<String, std::io::Error>)
    ensures
        match gunzipped(b@) {
            Some(t) => r is Ok && r->Ok_0@ == t,
            None => r is Err,
        },
{
    let mut text = String::new();
    std::io::Read::read_to_string(&mut flate2::read::GzDecoder::new(b), &mut text).map(|_| text)
}

/// Relies on `String::from_utf8`: the text of valid UTF-8 bytes.
#[verifier::external_body]
fn utf8_text(b: Vec<u8>) -> (r: Option<String>)
    ensures
        match r {
            Some(t) => valid_utf8(b@) && t@ == decode_utf8(b@),
            None => !valid_utf8(b@),
        },
{
    String::from_utf8(b).ok()
}

/// Why a payload could not be loaded.
#[derive(Debug)]
pub enum LoadError {
    /// The store holds neither a packed payload nor the legacy rule list.
    KeyNotFound(String),
    Base64Error(base64::DecodeError),
    /// Gzip failed, or the text is not UTF-8.
    DecompressError(Option<std::io::Error>),
    JsonError(String),
    InvalidFormat,
    /// No rule of the list has a definition.
    NoValidRules,
}

/// Rules and backends read from the store.
#[derive(Debug)]
pub struct LoadedRules {
    /// Rule ids in evaluation order.
    pub rule_list: Vec<String>,
    /// Rule definitions by id.
    pub rules: Vec<(String, Rule)>,
    /// Backend definitions by name.
    pub backends: Vec<(String, BackendConfig)>,
}

/// The JSON text a packed payload holds, or where reading it stops.
pub open spec fn payload_text(packed: Seq<char>) -> Result<Seq<char>, LoadFailure> {
    if is_prefix("raw:"@, packed) {
        match base64_decoded(packed.subrange(4, packed.len() as int)) {
            None => Err(LoadFailure::Base64),
            Some(b) => if valid_utf8(b) { Ok(decode_utf8(b)) } else { Err(LoadFailure::Decompress) },
        }
    } else {
        match base64_decoded(packed) {
            None => Err(LoadFailure::Base64),
            Some(b) => match gunzipped(b) {
                None => Err(LoadFailure::Decompress),
                Some(t) => Ok(t),
            },
        }
    }
}

/// The stage at which reading a payload fails.
pub enum LoadFailure {
    Base64,
    Decompress,
}

/// The JSON text of a packed payload: after a `raw:` prefix the rest is
/// base64 of the text; otherwise the whole is base64 of its gzip stream.
pub fn decompress_payload(packed: &str) -> (r: Result<String, LoadError>)
    ensures
        match payload_text(packed@) {
            Ok(t) => r is Ok && r->Ok_0@ == t,
            Err(LoadFailure::Base64) => r matches Err(LoadError::Base64Error(_)),
            Err(LoadFailure::Decompress) => r matches Err(LoadError::DecompressError(_)),
        },
{
    if starts_with(packed, "raw:") {
        proof {
            reveal_strlit("raw:");
        }
        let rest = packed.substring_char(4, packed.unicode_len());
        match base64_decode(rest) {
            Err(e) => Err(LoadError::Base64Error(e)),
            Ok(bytes) => match utf8_text(bytes) {
                Some(t) => Ok(t),
                None => Err(LoadError::DecompressError(None)),
            },
        }
    } else {
        match base64_decode(packed) {
            Err(e) => Err(LoadError::Base64Error(e)),
            Ok(bytes) => match gunzip_text(bytes.as_slice()) {
                Ok(t) => Ok(t),
                Err(e) => Err(LoadError::DecompressError(Some(e))),
            },
        }
    }
}

/// Whether a payload version is one this library reads as intended (`1.` and on).
pub fn is_supported_version(v: &str) -> (r: bool)
    ensures
        r == is_prefix("1."@, v@),
{
    starts_with(v, "1.")
}

/// Position of the first definition named `name`.
pub open spec fn def_index(defs: Seq<(String, Rule)>, name: Seq<char>) -> Option<int>
    decreases defs.len(),
{
    if defs.len() == 0 {
        None
    } else if defs[0].0@ == name {
        Some(0)
    } else {
        match def_index(defs.drop_first(), name) {
            Some(i) => Some(i + 1),
            None => None,
        }
    }
}

proof fn lemma_def_index(defs: Seq<(String, Rule)>, name: Seq<char>)
    ensures
        match def_index(defs, name) {
            Some(i) => 0 <= i < defs.len() && defs[i].0@ == name && forall|k: int| 0 <= k < i ==> defs[k].0@ != name,
            None => forall|k: int| 0 <= k < defs.len() ==> defs[k].0@ != name,
        },
    decreases defs.len(),
{
    if defs.len() > 0 {
        lemma_def_index(defs.drop_first(), name);
        if defs[0].0@ != name {
            assert forall|k: int| 0 < k < defs.len() implies defs[k] == defs.drop_first()[k - 1] by {}
        }
    }
}

/// The defined rules of `list`, in order of first mention; ids without a
/// definition are skipped.
pub open spec fn selected(list: Seq<String>, defs: Seq<(String, Rule)>) -> Seq<(String, Rule)>
    decreases list.len(),
{
    if list.len() == 0 {
        seq![]
    } else {
        let prev = selected(list.drop_last(), defs);
        let id = list.last()@;
        if rule_position(prev, id) is Some {
            prev
        } else {
            match def_index(defs, id) {
                Some(k) => prev.push(defs[k]),
                None => prev,
            }
        }
    }
}

/// An engine holding the defined rules of `rule_list`, in list order (a
/// repeated id counts once); `NoValidRules` when none is defined.
pub fn build_engine(rule_list: &Vec<String>, rules: Vec<(String, Rule)>) -> (r: Result<RuleEngine, LoadError>)
    requires
        names_unique(rules@),
    ensures
        selected(rule_list@, rules@).len() == 0 ==> r matches Err(LoadError::NoValidRules),
        selected(rule_list@, rules@).len() > 0 ==> (r matches Ok(e) && e.rules@ == selected(rule_list@, rules@)
            && e.limits@.counts.is_empty() && e.limits@.until.is_empty()),
{
    let ghost orig = rules@;
    let mut rules = rules;
    let mut slots: Vec<Option<(String, Rule)>> = Vec::new();
    while rules.len() > 0
        invariant
            slots@.len() + rules@.len() == orig.len(),
            forall|k: int| 0 <= k < slots@.len() ==> slots@[k] == Some(orig[k]),
            forall|k: int| 0 <= k < rules@.len() ==> rules@[k] == orig[slots@.len() + k],
        decreases rules@.len(),
    {
        let d = rules.remove(0);
        slots.push(Some(d));
    }
    let mut engine = RuleEngine::new();
    let mut i: usize = 0;
    while i < rule_list.len()
        invariant
            i <= rule_list@.len(),
            names_unique(orig),
            slots@.len() == orig.len(),
            engine.rules@ == selected(rule_list@.subrange(0, i as int), orig),
            names_unique(engine.rules@),
            engine.limits@.counts.is_empty() && engine.limits@.until.is_empty(),
            forall|k: int| 0 <= k < slots@.len() ==> (slots@[k] == Some(orig[k]) || slots@[k] is None),
            forall|k: int| 0 <= k < slots@.len() ==> (#[trigger] slots@[k] is None <==> rule_position(engine.rules@, orig[k].0@) is Some),
        decreases rule_list@.len() - i,
    {
        let ghost prev = engine.rules@;
        let id = &rule_list[i];
        proof {
            assert(rule_list@.subrange(0, i + 1).drop_last() =~= rule_list@.subrange(0, i as int));
            lemma_def_index(orig, id@);
        }
        let mut present = false;
        let mut j: usize = 0;
        while j < engine.rules.len()
            invariant
                j <= engine.rules@.len(),
                !present ==> forall|q: int| 0 <= q < j ==> (#[trigger] engine.rules@[q]).0@ != id@,
                present ==> rule_position(engine.rules@, id@) is Some,
            decreases engine.rules@.len() - j,
        {
            if same_text(engine.rules[j].0.as_str(), id.as_str()) {
                present = true;
            }
            j += 1;
        }
        if !present {
            assert(rule_position(prev, id@) is None);
            let mut k: usize = 0;
            let mut found: Option<usize> = None;
            while k < slots.len()
                invariant
                    k <= slots@.len(),
                    slots@.len() == orig.len(),
                    forall|q: int| 0 <= q < slots@.len() ==> (slots@[q] == Some(orig[q]) || slots@[q] is None),
                    found matches Some(f) ==> f < slots@.len() && slots@[f as int] is Some && orig[f as int].0@ == id@,
                    found is None ==> forall|q: int| 0 <= q < k ==> !(slots@[q] is Some && orig[q].0@ == id@),
                decreases slots@.len() - k,
            {
                if found.is_none() {
                    match &slots[k] {
                        Some(d) => {
                            if same_text(d.0.as_str(), id.as_str()) {
                                found = Some(k);
                            }
                        },
                        None => {},
                    }
                }
                k += 1;
            }
            match found {
                Some(f) => {
                    let taken = slots.remove(f);
                    slots.insert(f, None);
                    match taken {
                        Some(d) => {
                            proof {
                                assert(d == orig[f as int]);
                                assert(def_index(orig, id@) == Some(f as int)) by {
                                    let di = def_index(orig, id@)->0;
                                    if di != f as int {
                                        if di < f as int {
                                            assert(orig[di].0@ != orig[f as int].0@);
                                        } else {
                                            assert(orig[f as int].0@ != orig[di].0@);
                                        }
                                    }
                                }
                            }
                            engine.add_rule(d.0, d.1);
                            proof {
                                assert(engine.rules@ == prev.push(orig[f as int]));
                                assert forall|q: int| 0 <= q < slots@.len() implies (#[trigger] slots@[q] is None <==> rule_position(engine.rules@, orig[q].0@) is Some) by {
                                    if q != f as int {
                                        if rule_position(engine.rules@, orig[q].0@) is Some && rule_position(prev, orig[q].0@) is None {
                                            let w = choose|w: int| 0 <= w < engine.rules@.len() && (#[trigger] engine.rules@[w]).0@ == orig[q].0@;
                                            if w < prev.len() {
                                                assert(prev[w] == engine.rules@[w]);
                                            } else {
                                                assert(orig[q].0@ == orig[f as int].0@);
                                                if q < f as int {
                                                    assert(orig[q].0@ != orig[f as int].0@);
                                                } else {
                                                    assert(orig[f as int].0@ != orig[q].0@);
                                                }
                                            }
                                        }
                                        if rule_position(prev, orig[q].0@) is Some {
                                            let w = choose|w: int| 0 <= w < prev.len() && (#[trigger] prev[w]).0@ == orig[q].0@;
                                            assert(engine.rules@[w] == prev[w]);
                                        }
                                    } else {
                                        assert(engine.rules@[prev.len() as int].0@ == orig[q].0@);
                                    }
                                }
                            }
                        },
                        None => {},
                    }
                },
                None => {
                    proof {
                        assert(def_index(orig, id@) is None) by {
                            if def_index(orig, id@) is Some {
                                let di = def_index(orig, id@)->0;
                                assert(slots@[di] is None);
                            }
                        }
                    }
                },
            }
        }
        i += 1;
    }
    assert(rule_list@.subrange(0, rule_list@.len() as int) =~= rule_list@);
    if engine.rule_count() == 0 {
        Err(LoadError::NoValidRules)
    } else {
        Ok(engine)
    }
}

/// The pieces of `s` between commas, in order (one more than there are commas).
pub open spec fn comma_pieces(s: Seq<char>) -> Seq<Seq<char>>
    decreases s.len(),
{
    if s.len() == 0 {
        seq![seq![]]
    } else {
        let prev = comma_pieces(s.drop_last());
        if s.last() == ',' {
            prev.push(seq![])
        } else {
            prev.update(prev.len() - 1, prev.last().push(s.last()))
        }
    }
}

proof fn lemma_comma_pieces_nonempty(s: Seq<char>)
    ensures
        comma_pieces(s).len() >= 1,
    decreases s.len(),
{
    if s.len() > 0 {
        lemma_comma_pieces_nonempty(s.drop_last());
    }
}

/// What `str::trim` leaves of a text.
pub uninterp spec fn trimmed(s: Seq<char>) -> Seq<char>;

/// Relies on `str::trim`: leading and trailing white space removed.
#[verifier::external_body]
fn trim_text(s: &str) -> (r: String)
    ensures
        r@ == trimmed(s@),
{
    s.trim().to_string()
}

/// The rule ids of a legacy rule list: the comma-separated pieces, trimmed.
pub fn parse_rule_list(s: &str) -> (r: Vec<String>)
    ensures
        r@.len() == comma_pieces(s@).len(),
        forall|i: int| 0 <= i < r@.len() ==> #[trigger] r@[i]@ == trimmed(comma_pieces(s@)[i]),
{
    let n = s.unicode_len();
    let mut out: Vec<String> = Vec::new();
    let mut start: usize = 0;
    let mut i: usize = 0;
    while i < n
        invariant
            n == s@.len(),
            start <= i <= n,
            comma_pieces(s@.subrange(0, i as int)).len() == out@.len() + 1,
            comma_pieces(s@.subrange(0, i as int)).last() == s@.subrange(start as int, i as int),
            forall|k: int| 0 <= k < out@.len() ==> #[trigger] out@[k]@ == trimmed(comma_pieces(s@.subrange(0, i as int))[k]),
        decreases n - i,
    {
        let c = s.get_char(i);
        proof {
            let pre = s@.subrange(0, i + 1);
            assert(pre.drop_last() =~= s@.subrange(0, i as int));
            assert(pre.last() == c);
            lemma_comma_pieces_nonempty(s@.subrange(0, i as int));
        }
        if c == ',' {
            let piece = s.substring_char(start, i);
            let t = trim_text(piece);
            out.push(t);
            start = i + 1;
            proof {
                assert(s@.subrange(start as int, i + 1) =~= Seq::<char>::empty());
            }
        } else {
            proof {
                assert(s@.subrange(start as int, i + 1) =~= s@.subrange(start as int, i as int).push(c));
            }
        }
        i += 1;
    }
    let piece = s.substring_char(start, n);
    let t = trim_text(piece);
    out.push(t);
    assert(s@.subrange(0, n as int) =~= s@);
    out
}

/// Relies on `base64::engine::general_purpose::STANDARD.encode`: decoding the
/// text gives the bytes back, and the standard alphabet has no `:`.
#[verifier::external_body]
fn base64_encode(b: &[u8]) -> (r: String)
    ensures
        base64_decoded(r@) == Some(b@),
        forall|i: int| 0 <= i < r@.len() ==> r@[i] != ':',
{
    base64::engine::general_purpose::STANDARD.encode(b)
}

/// Relies on `flate2::write::GzEncoder` over a vector, written with
/// `std::io::Write::write_all` and closed with `finish`: the stream
/// decompresses to the text again.
#[verifier::external_body]
fn gzip_text(s: &str) -> (r: Option<Vec<u8>>)
    ensures
        r matches Some(b) ==> gunzipped(b@) == Some(s@),
{
    let mut enc = flate2::write::GzEncoder::new(Vec::new(), flate2::Compression::default());
    match std::io::Write::write_all(&mut enc, s.as_bytes()) {
        Ok(()) => enc.finish().ok(),
        Err(_) => None,
    }
}

/// Packs a JSON text as a payload: `raw:` and base64 of the text, or, when
/// `compress`, base64 of its gzip stream. Unpacking gives the text back.
pub fn pack_payload(json: &str, compress: bool) -> (r: Option<String>)
    ensures
        !compress ==> r is Some,
        r matches Some(p) ==> payload_text(p@) == Ok::<Seq<char>, LoadFailure>(json@),
{
    if compress {
        match gzip_text(json) {
            None => None,
            Some(bytes) => {
                let text = base64_encode(bytes.as_slice());
                proof {
                    reveal_strlit("raw:");
                    if is_prefix("raw:"@, text@) {
                        assert(text@[3] == "raw:"@[3]);
                    }
                }
                Some(text)
            },
        }
    } else {
        let text = base64_encode(json.as_bytes());
        let packed = crate::text::join2("raw:", text.as_str());
        proof {
            reveal_strlit("raw:");
            assert("raw:"@.len() == 4);
            assert(packed@.subrange(0, 4) =~= "raw:"@);
            assert(packed@.subrange(4, packed@.len() as int) =~= text@);
            encode_utf8_valid_utf8(json@);
            encode_utf8_decode_utf8(json@);
        }
        Some(packed)
    }
}

} // verus!
