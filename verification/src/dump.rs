//! Texts for a person to read: dumps of bytes in hexadecimal, and what an
//! advertisement, an identifier or the header of an object holds.
use crate::caps::CapsModel;
use crate::hash::{GitHash, hex_text};
use crate::object::kind_name;
use crate::pack::PackObjectHeader;
use crate::pktline::hex_byte;
use crate::refs::{AdvModel, RefAdvertisement};
use crate::text::{decimal, encodings, push_decimal};
use vstd::prelude::*;
use vstd::string::*;
use vstd::utf8::*;

verus! {

/// The two lower-case hexadecimal digits of a byte.
pub open spec fn hex2(b: u8) -> Seq<u8> {
    seq![hex_byte(b as int / 16), hex_byte(b as int % 16)]
}

/// The hexadecimal digits of a number, without leading zeros.
pub open spec fn hex_digits(n: nat) -> Seq<u8>
    decreases n,
{
    if n < 16 {
        seq![hex_byte(n as int)]
    } else {
        hex_digits(n / 16).push(hex_byte((n % 16) as int))
    }
}

/// So many zeros.
pub open spec fn zeros(n: int) -> Seq<u8> {
    Seq::new(
        if n > 0 {
            n as nat
        } else {
            0
        },
        |i: int| 48u8,
    )
}

/// The hexadecimal digits of a number, with zeros in front up to eight
/// digits.
pub open spec fn offset_text(n: nat) -> Seq<u8> {
    zeros(8 - hex_digits(n).len()) + hex_digits(n)
}

/// A byte as it is shown in the text column: itself where it is a space
/// or a visible ASCII character, and a dot otherwise.
pub open spec fn shown_byte(b: u8) -> u8 {
    if 32 <= b <= 126 {
        b
    } else {
        46
    }
}

/// The hexadecimal column of up to sixteen bytes: two digits and a space
/// for each byte.
pub open spec fn hex_column(chunk: Seq<u8>) -> Seq<u8>
    decreases chunk.len(),
{
    if chunk.len() == 0 {
        Seq::empty()
    } else {
        hex_column(chunk.drop_last()) + hex2(chunk.last()) + seq![32u8]
    }
}

/// The text column of some bytes.
pub open spec fn text_column(chunk: Seq<u8>) -> Seq<u8> {
    Seq::new(chunk.len(), |i: int| shown_byte(chunk[i]))
}

/// So many times three spaces as bytes are missing from sixteen.
pub open spec fn padding(len: int) -> Seq<u8> {
    Seq::new(
        if len < 16 {
            (3 * (16 - len)) as nat
        } else {
            0
        },
        |i: int| 32u8,
    )
}

/// One line of a dump: the offset in eight hexadecimal digits, a colon
/// and a space, the hexadecimal column padded to sixteen bytes, a space,
/// and the text column, which stands between bars where they are asked
/// for.
pub open spec fn dump_line(offset: nat, chunk: Seq<u8>, bars: bool) -> Seq<u8> {
    offset_text(offset) + seq![58u8, 32u8] + hex_column(chunk) + padding(chunk.len() as int) + (
    if bars {
        seq![32u8, 124u8]
    } else {
        seq![32u8]
    }) + text_column(chunk) + (if bars {
        seq![124u8, 10u8]
    } else {
        seq![10u8]
    })
}

/// The lines of a dump of the bytes from position `from` on, sixteen
/// bytes to a line.
pub open spec fn dump_from(data: Seq<u8>, from: int, bars: bool) -> Seq<u8>
    decreases data.len() - from,
{
    if from < 0 || from >= data.len() {
        Seq::empty()
    } else if from + 16 >= data.len() {
        dump_line(from as nat, data.subrange(from, data.len() as int), bars)
    } else {
        dump_line(from as nat, data.subrange(from, from + 16), bars) + dump_from(
            data,
            from + 16,
            bars,
        )
    }
}

/// A dump of bytes under a label.
pub open spec fn labelled_dump(label: Seq<u8>, data: Seq<u8>) -> Seq<u8> {
    "--- ".spec_bytes() + label + " ---\n".spec_bytes() + dump_from(data, 0, false)
        + "--- End of ".spec_bytes() + label + " ---\n".spec_bytes()
}

/// The lower-case hexadecimal digit for a value below sixteen.
fn digit(d: u8) -> (b: u8)
    requires
        d < 16,
    ensures
        b == hex_byte(d as int),
{
    if d < 10 {
        48 + d
    } else {
        87 + d
    }
}

/// Appends the two digits of a byte.
fn push_hex2(out: &mut Vec<u8>, b: u8)
    ensures
        final(out)@ == old(out)@ + hex2(b),
{
    out.push(digit(b / 16));
    out.push(digit(b % 16));
    assert(out@ =~= old(out)@ + hex2(b));
}

/// Appends the digits of a number.
fn push_hex_digits(out: &mut Vec<u8>, n: usize)
    ensures
        final(out)@ == old(out)@ + hex_digits(n as nat),
    decreases n,
{
    if n >= 16 {
        push_hex_digits(out, n / 16);
    }
    out.push(digit((n % 16) as u8));
    assert(out@ =~= old(out)@ + hex_digits(n as nat));
}

/// Appends an offset.
fn push_offset(out: &mut Vec<u8>, n: usize)
    ensures
        final(out)@ == old(out)@ + offset_text(n as nat),
{
    let mut digits: Vec<u8> = Vec::new();
    push_hex_digits(&mut digits, n);
    assert(digits@ =~= hex_digits(n as nat));
    let mut k: usize = digits.len();
    assert(out@ =~= old(out)@ + zeros(0));
    while k < 8
        invariant
            digits@ == hex_digits(n as nat),
            digits@.len() <= k,
            k <= 8 || k == digits@.len(),
            out@ == old(out)@ + zeros(k - digits@.len()),
        decreases 8 - k,
    {
        out.push(48);
        k += 1;
        assert(out@ =~= old(out)@ + zeros(k - digits@.len()));
    }
    proof {
        assert(zeros(k - digits@.len()) =~= zeros(8 - digits@.len()));
    }
    out.extend_from_slice(digits.as_slice());
    assert(out@ =~= old(out)@ + offset_text(n as nat));
}

/// Appends one line of a dump.
fn push_dump_line(out: &mut Vec<u8>, offset: usize, chunk: &[u8], bars: bool)
    requires
        chunk@.len() <= 16,
    ensures
        final(out)@ == old(out)@ + dump_line(offset as nat, chunk@, bars),
{
    push_offset(out, offset);
    out.push(58);
    out.push(32);
    let ghost head = out@;
    let mut i: usize = 0;
    proof {
        assert(chunk@.take(0) =~= Seq::<u8>::empty());
        assert(out@ =~= head + hex_column(chunk@.take(0)));
    }
    while i < chunk.len()
        invariant
            i <= chunk@.len(),
            out@ == head + hex_column(chunk@.take(i as int)),
        decreases chunk@.len() - i,
    {
        proof {
            assert(chunk@.take(i + 1).drop_last() =~= chunk@.take(i as int));
            assert(chunk@.take(i + 1).last() == chunk@[i as int]);
        }
        push_hex2(out, chunk[i]);
        out.push(32);
        i += 1;
        assert(out@ =~= head + hex_column(chunk@.take(i as int)));
    }
    assert(chunk@.take(i as int) =~= chunk@);
    let ghost with_hex = out@;
    let mut k: usize = 3 * chunk.len();
    while k < 48
        invariant
            3 * chunk@.len() <= k <= 48,
            chunk@.len() <= 16,
            out@.len() == with_hex.len() + (k - 3 * chunk@.len()),
            forall|j: int| 0 <= j < with_hex.len() ==> out@[j] == with_hex[j],
            forall|j: int| with_hex.len() <= j < out@.len() ==> out@[j] == 32,
        decreases 48 - k,
    {
        out.push(32);
        k += 1;
    }
    assert(out@ =~= with_hex + padding(chunk@.len() as int));
    out.push(32);
    if bars {
        out.push(124);
    }
    let ghost with_bar = out@;
    let mut j: usize = 0;
    while j < chunk.len()
        invariant
            j <= chunk@.len(),
            out@ == with_bar + text_column(chunk@).take(j as int),
        decreases chunk@.len() - j,
    {
        let b = chunk[j];
        let c = if 32 <= b && b <= 126 {
            b
        } else {
            46
        };
        out.push(c);
        j += 1;
        assert(out@ =~= with_bar + text_column(chunk@).take(j as int));
    }
    assert(text_column(chunk@).take(j as int) =~= text_column(chunk@));
    if bars {
        out.push(124);
    }
    out.push(10);
    assert(out@ =~= old(out)@ + dump_line(offset as nat, chunk@, bars));
}

/// Appends the lines of a dump.
fn push_dump(out: &mut Vec<u8>, data: &[u8], bars: bool)
    ensures
        final(out)@ == old(out)@ + dump_from(data@, 0, bars),
{
    let mut at: usize = 0;
    let ghost total = dump_from(data@, 0, bars);
    proof {
        assert(out@ + total =~= old(out)@ + total);
    }
    while at < data.len()
        invariant
            at <= data@.len(),
            total == dump_from(data@, 0, bars),
            old(out)@ + total == out@ + dump_from(data@, at as int, bars),
        decreases data@.len() - at,
    {
        let ghost before = out@;
        let end = if data.len() - at <= 16 {
            data.len()
        } else {
            at + 16
        };
        let chunk = vstd::slice::slice_subrange(data, at, end);
        push_dump_line(out, at, chunk, bars);
        proof {
            let line = dump_line(at as nat, chunk@, bars);
            if end == data@.len() {
                assert(dump_from(data@, end as int, bars) =~= Seq::<u8>::empty());
                assert(before + line =~= out@ + dump_from(data@, end as int, bars));
            } else {
                assert(before + (line + dump_from(data@, end as int, bars)) =~= out@ + dump_from(
                    data@,
                    end as int,
                    bars,
                ));
            }
        }
        at = end;
    }
    proof {
        assert(dump_from(data@, at as int, bars) =~= Seq::<u8>::empty());
        assert(out@ + Seq::<u8>::empty() =~= out@);
    }
}

/// A dump of bytes under a label: a line with the label, the lines of the
/// dump with offset, hexadecimal column and text column, and a closing
/// line.
pub fn print_hex_dump(label: &str, data: &[u8]) -> (text: Vec<u8>)
    ensures
        text@ == labelled_dump(label.spec_bytes(), data@),
{
    let mut text = vstd::slice::slice_to_vec("--- ".as_bytes());
    text.extend_from_slice(label.as_bytes());
    text.extend_from_slice(" ---\n".as_bytes());
    push_dump(&mut text, data, false);
    text.extend_from_slice("--- End of ".as_bytes());
    text.extend_from_slice(label.as_bytes());
    text.extend_from_slice(" ---\n".as_bytes());
    assert(text@ =~= labelled_dump(label.spec_bytes(), data@));
    text
}

/// A dump of bytes for a file: the lines of the dump, with the text
/// column between bars.
pub fn dump_bytes_as_hex(bytes: &[u8]) -> (text: Vec<u8>)
    ensures
        text@ == dump_from(bytes@, 0, true),
{
    let mut text: Vec<u8> = Vec::new();
    push_dump(&mut text, bytes, true);
    assert(Seq::<u8>::empty() + dump_from(bytes@, 0, true) =~= dump_from(bytes@, 0, true));
    text
}

/// The bytes of a list in hexadecimal, each followed by a space, and a
/// line feed at the end.
pub fn print_raw_bytes(raw: &Vec<u8>) -> (text: Vec<u8>)
    ensures
        text@ == hex_column(raw@) + seq![10u8],
{
    let mut text: Vec<u8> = Vec::new();
    let mut i: usize = 0;
    proof {
        assert(raw@.take(0) =~= Seq::<u8>::empty());
    }
    while i < raw.len()
        invariant
            i <= raw@.len(),
            text@ == hex_column(raw@.take(i as int)),
        decreases raw@.len() - i,
    {
        proof {
            assert(raw@.take(i + 1).drop_last() =~= raw@.take(i as int));
            assert(raw@.take(i + 1).last() == raw@[i as int]);
        }
        push_hex2(&mut text, raw[i]);
        text.push(32);
        i += 1;
        assert(text@ =~= hex_column(raw@.take(i as int)));
    }
    assert(raw@.take(i as int) =~= raw@);
    text.push(10);
    text
}

/// What an identifier is shown as: its hexadecimal text, and its bytes in
/// hexadecimal with spaces between them.
pub open spec fn hash_description(raw: Seq<u8>) -> Seq<u8> {
    "GitHash { hex: ".spec_bytes() + encode_utf8(hex_text(raw)) + ", bytes: [".spec_bytes()
        + spaced_hex(raw) + "] }".spec_bytes()
}

/// The bytes of a list in hexadecimal, with a space between each two
/// neighbours.
pub open spec fn spaced_hex(raw: Seq<u8>) -> Seq<u8>
    decreases raw.len(),
{
    if raw.len() == 0 {
        Seq::empty()
    } else if raw.len() == 1 {
        hex2(raw[0])
    } else {
        spaced_hex(raw.drop_last()) + seq![32u8] + hex2(raw.last())
    }
}

/// What an identifier is shown as.
pub fn describe_hash(hash: &GitHash) -> (text: Vec<u8>)
    ensures
        text@ == hash_description(hash@),
{
    let mut text = vstd::slice::slice_to_vec("GitHash { hex: ".as_bytes());
    text.extend_from_slice(hash.to_hex().as_str().as_bytes());
    text.extend_from_slice(", bytes: [".as_bytes());
    let ghost head = text@;
    let raw = hash.as_bytes();
    let mut i: usize = 0;
    proof {
        assert(raw@.take(0) =~= Seq::<u8>::empty());
        assert(text@ =~= head + spaced_hex(raw@.take(0)));
    }
    while i < raw.len()
        invariant
            i <= raw@.len(),
            text@ == head + spaced_hex(raw@.take(i as int)),
        decreases raw@.len() - i,
    {
        proof {
            assert(raw@.take(i + 1).drop_last() =~= raw@.take(i as int));
            assert(raw@.take(i + 1).last() == raw@[i as int]);
            if i == 0 {
                assert(raw@.take(1)[0] == raw@[0]);
            }
        }
        if i > 0 {
            text.push(32);
        }
        push_hex2(&mut text, raw[i]);
        i += 1;
        assert(text@ =~= head + spaced_hex(raw@.take(i as int)));
    }
    assert(raw@.take(i as int) =~= raw@);
    text.extend_from_slice("] }".as_bytes());
    assert(text@ =~= hash_description(hash@));
    text
}

/// What the header of an object is shown as.
pub fn describe_object_header(header: &PackObjectHeader) -> (text: Vec<u8>)
    ensures
        text@ == "PackObjectHeader(type: ".spec_bytes() + kind_name(header.object_type)
            + ", size: ".spec_bytes() + decimal(header.size as nat) + ", header_size: ".spec_bytes()
            + decimal(header.header_size as nat) + ")".spec_bytes(),
{
    let mut text = vstd::slice::slice_to_vec("PackObjectHeader(type: ".as_bytes());
    text.extend_from_slice(header.object_type.as_str().as_bytes());
    text.extend_from_slice(", size: ".as_bytes());
    push_decimal(&mut text, header.size);
    text.extend_from_slice(", header_size: ".as_bytes());
    push_decimal(&mut text, header.header_size as u64);
    text.extend_from_slice(")".as_bytes());
    assert(text@ =~= "PackObjectHeader(type: ".spec_bytes() + kind_name(header.object_type)
        + ", size: ".spec_bytes() + decimal(header.size as nat) + ", header_size: ".spec_bytes()
        + decimal(header.header_size as nat) + ")".spec_bytes());
    text
}

/// The line of a flag: two spaces, the name, a colon, a space, `true` or
/// `false`, and a line feed.
pub open spec fn flag_line(name: Seq<u8>, value: bool) -> Seq<u8> {
    "  ".spec_bytes() + name + ": ".spec_bytes() + (if value {
        "true".spec_bytes()
    } else {
        "false".spec_bytes()
    }) + seq![10u8]
}

/// The lines of the flags that say how objects are acknowledged and
/// sent.
pub open spec fn transfer_flag_lines(c: CapsModel) -> Seq<u8> {
    flag_line("multi_ack".spec_bytes(), c.multi_ack) + flag_line(
        "multi_ack_detailed".spec_bytes(),
        c.multi_ack_detailed,
    ) + flag_line("thin_pack".spec_bytes(), c.thin_pack) + flag_line(
        "side_band".spec_bytes(),
        c.side_band,
    )
}

/// The lines of the flags that say what a pack may hold and how far the
/// history reaches.
pub open spec fn pack_flag_lines(c: CapsModel) -> Seq<u8> {
    flag_line("side_band_64k".spec_bytes(), c.side_band_64k) + flag_line(
        "ofs_delta".spec_bytes(),
        c.ofs_delta,
    ) + flag_line("shallow".spec_bytes(), c.shallow) + flag_line(
        "no_progress".spec_bytes(),
        c.no_progress,
    )
}

/// The lines of the flags that say what may be wanted.
pub open spec fn want_flag_lines(c: CapsModel) -> Seq<u8> {
    flag_line("include_tag".spec_bytes(), c.include_tag) + flag_line(
        "allow_tip_sha1_in_want".spec_bytes(),
        c.allow_tip_sha1_in_want,
    ) + flag_line("allow_reachable_sha1_in_want".spec_bytes(), c.allow_reachable_sha1_in_want)
        + flag_line("no_done".spec_bytes(), c.no_done)
}

/// The lines of the twelve flags.
pub open spec fn flag_lines(c: CapsModel) -> Seq<u8> {
    transfer_flag_lines(c) + pack_flag_lines(c) + want_flag_lines(c)
}

/// The lines of the fields that are set: the symbolic reference, the
/// agent and the object format.
pub open spec fn field_lines(c: CapsModel) -> Seq<u8> {
    (match c.symref {
        Some((from, to)) => "  symref: ".spec_bytes() + from + " -> ".spec_bytes() + to
            + seq![10u8],
        None => Seq::empty(),
    }) + (match c.agent {
        Some(agent) => "  agent: ".spec_bytes() + agent + seq![10u8],
        None => Seq::empty(),
    }) + (match c.object_format {
        Some(format) => "  object_format: ".spec_bytes() + format + seq![10u8],
        None => Seq::empty(),
    })
}

/// One line for each text of a list: four spaces, a dash, a space, the
/// text and a line feed.
pub open spec fn item_lines(items: Seq<Seq<u8>>) -> Seq<u8>
    decreases items.len(),
{
    if items.len() == 0 {
        Seq::empty()
    } else {
        item_lines(items.drop_last()) + "    - ".spec_bytes() + items.last() + seq![10u8]
    }
}

/// The lines of the other capabilities, under a heading, where there are
/// any.
pub open spec fn other_lines(c: CapsModel) -> Seq<u8> {
    if c.other.len() == 0 {
        Seq::empty()
    } else {
        "  other:\n".spec_bytes() + item_lines(c.other)
    }
}

/// One line for each reference: two spaces, the name, an arrow, the
/// identifier and a line feed.
pub open spec fn ref_lines(refs: Seq<(Seq<u8>, Seq<u8>)>) -> Seq<u8>
    decreases refs.len(),
{
    if refs.len() == 0 {
        Seq::empty()
    } else {
        ref_lines(refs.drop_last()) + "  ".spec_bytes() + refs.last().1 + " -> ".spec_bytes()
            + refs.last().0 + seq![10u8]
    }
}

/// The first lines of what an advertisement is shown as: a rule and the
/// head.
pub open spec fn head_lines(m: AdvModel) -> Seq<u8> {
    "--- RefAdvertisement ---\n".spec_bytes() + "HEAD: ".spec_bytes() + (match m.head {
        Some(head) => head,
        None => "<none>".spec_bytes(),
    }) + seq![10u8]
}

/// The lines of the capabilities, under their heading.
pub open spec fn capability_lines(m: AdvModel) -> Seq<u8> {
    "\nCapabilities:\n".spec_bytes() + flag_lines(m.capabilities) + field_lines(m.capabilities)
        + other_lines(m.capabilities)
}

/// The lines of the references, under their heading, and the closing
/// rule.
pub open spec fn reference_lines(m: AdvModel) -> Seq<u8> {
    "\nRefs:\n".spec_bytes() + ref_lines(m.refs) + "-------------------------\n\n".spec_bytes()
}

/// What an advertisement is shown as: the head, the capabilities and the
/// references, under headings and between rules.
pub open spec fn advertisement_text(m: AdvModel) -> Seq<u8> {
    head_lines(m) + capability_lines(m) + reference_lines(m)
}

/// Appends the line of a flag.
fn push_flag(out: &mut Vec<u8>, name: &str, value: bool)
    ensures
        final(out)@ == old(out)@ + flag_line(name.spec_bytes(), value),
{
    out.extend_from_slice("  ".as_bytes());
    out.extend_from_slice(name.as_bytes());
    out.extend_from_slice(": ".as_bytes());
    if value {
        out.extend_from_slice("true".as_bytes());
    } else {
        out.extend_from_slice("false".as_bytes());
    }
    out.push(10);
    assert(out@ =~= old(out)@ + flag_line(name.spec_bytes(), value));
}

/// Appends the lines of the first four flags.
fn push_transfer_flags(out: &mut Vec<u8>, adv: &RefAdvertisement)
    ensures
        final(out)@ == old(out)@ + transfer_flag_lines(adv@.capabilities),
{
    let c = &adv.capabilities;
    push_flag(out, "multi_ack", c.multi_ack);
    push_flag(out, "multi_ack_detailed", c.multi_ack_detailed);
    push_flag(out, "thin_pack", c.thin_pack);
    push_flag(out, "side_band", c.side_band);
    assert(out@ =~= old(out)@ + transfer_flag_lines(adv@.capabilities));
}

/// Appends the lines of the next four flags.
fn push_pack_flags(out: &mut Vec<u8>, adv: &RefAdvertisement)
    ensures
        final(out)@ == old(out)@ + pack_flag_lines(adv@.capabilities),
{
    let c = &adv.capabilities;
    push_flag(out, "side_band_64k", c.side_band_64k);
    push_flag(out, "ofs_delta", c.ofs_delta);
    push_flag(out, "shallow", c.shallow);
    push_flag(out, "no_progress", c.no_progress);
    assert(out@ =~= old(out)@ + pack_flag_lines(adv@.capabilities));
}

/// Appends the lines of the last four flags.
fn push_want_flags(out: &mut Vec<u8>, adv: &RefAdvertisement)
    ensures
        final(out)@ == old(out)@ + want_flag_lines(adv@.capabilities),
{
    let c = &adv.capabilities;
    push_flag(out, "include_tag", c.include_tag);
    push_flag(out, "allow_tip_sha1_in_want", c.allow_tip_sha1_in_want);
    push_flag(out, "allow_reachable_sha1_in_want", c.allow_reachable_sha1_in_want);
    push_flag(out, "no_done", c.no_done);
    assert(out@ =~= old(out)@ + want_flag_lines(adv@.capabilities));
}

/// Appends the lines of the twelve flags.
fn push_flags(out: &mut Vec<u8>, adv: &RefAdvertisement)
    ensures
        final(out)@ == old(out)@ + flag_lines(adv@.capabilities),
{
    push_transfer_flags(out, adv);
    push_pack_flags(out, adv);
    push_want_flags(out, adv);
    assert(out@ =~= old(out)@ + flag_lines(adv@.capabilities));
}

/// Appends the lines of the fields that are set.
fn push_fields(out: &mut Vec<u8>, adv: &RefAdvertisement)
    ensures
        final(out)@ == old(out)@ + field_lines(adv@.capabilities),
{
    let c = &adv.capabilities;
    match &c.symref {
        Some(pair) => {
            out.extend_from_slice("  symref: ".as_bytes());
            out.extend_from_slice(pair.0.as_str().as_bytes());
            out.extend_from_slice(" -> ".as_bytes());
            out.extend_from_slice(pair.1.as_str().as_bytes());
            out.push(10);
        },
        None => {},
    }
    match &c.agent {
        Some(agent) => {
            out.extend_from_slice("  agent: ".as_bytes());
            out.extend_from_slice(agent.as_str().as_bytes());
            out.push(10);
        },
        None => {},
    }
    match &c.object_format {
        Some(format) => {
            out.extend_from_slice("  object_format: ".as_bytes());
            out.extend_from_slice(format.as_str().as_bytes());
            out.push(10);
        },
        None => {},
    }
    assert(out@ =~= old(out)@ + field_lines(adv@.capabilities));
}

/// Appends the lines of the other capabilities.
fn push_others(out: &mut Vec<u8>, adv: &RefAdvertisement)
    ensures
        final(out)@ == old(out)@ + other_lines(adv@.capabilities),
{
    let others = &adv.capabilities.other;
    let ghost items = encodings(others@);
    if others.len() == 0 {
        assert(out@ =~= old(out)@ + other_lines(adv@.capabilities));
        return ;
    }
    out.extend_from_slice("  other:\n".as_bytes());
    let ghost head = out@;
    let mut i: usize = 0;
    proof {
        assert(items.take(0) =~= Seq::<Seq<u8>>::empty());
        assert(out@ =~= head + item_lines(items.take(0)));
    }
    while i < others.len()
        invariant
            i <= others@.len(),
            items == encodings(others@),
            out@ == head + item_lines(items.take(i as int)),
        decreases others@.len() - i,
    {
        proof {
            assert(items.take(i + 1).drop_last() =~= items.take(i as int));
            assert(items.take(i + 1).last() == encode_utf8(others@[i as int]@));
        }
        out.extend_from_slice("    - ".as_bytes());
        out.extend_from_slice(others[i].as_str().as_bytes());
        out.push(10);
        i += 1;
        assert(out@ =~= head + item_lines(items.take(i as int)));
    }
    assert(items.take(i as int) =~= items);
    assert(out@ =~= old(out)@ + other_lines(adv@.capabilities));
}

/// Appends the lines of the references.
fn push_refs(out: &mut Vec<u8>, adv: &RefAdvertisement)
    ensures
        final(out)@ == old(out)@ + ref_lines(adv@.refs),
{
    let ghost refs = adv@.refs;
    let mut i: usize = 0;
    proof {
        assert(refs.take(0) =~= Seq::<(Seq<u8>, Seq<u8>)>::empty());
        assert(out@ =~= old(out)@ + ref_lines(refs.take(0)));
    }
    while i < adv.refs.len()
        invariant
            i <= adv.refs@.len(),
            refs == adv@.refs,
            out@ == old(out)@ + ref_lines(refs.take(i as int)),
        decreases adv.refs@.len() - i,
    {
        let r = &adv.refs[i];
        proof {
            assert(refs.take(i + 1).drop_last() =~= refs.take(i as int));
            assert(refs.take(i + 1).last() == (encode_utf8(r.hash@), encode_utf8(r.name@)));
        }
        out.extend_from_slice("  ".as_bytes());
        out.extend_from_slice(r.name.as_str().as_bytes());
        out.extend_from_slice(" -> ".as_bytes());
        out.extend_from_slice(r.hash.as_str().as_bytes());
        out.push(10);
        i += 1;
        assert(out@ =~= old(out)@ + ref_lines(refs.take(i as int)));
    }
    assert(refs.take(i as int) =~= refs);
}

impl RefAdvertisement {
    /// Appends the first lines.
    fn push_head(&self, out: &mut Vec<u8>)
        ensures
            final(out)@ == old(out)@ + head_lines(self@),
    {
        out.extend_from_slice("--- RefAdvertisement ---\n".as_bytes());
        out.extend_from_slice("HEAD: ".as_bytes());
        match &self.head {
            Some(head) => {
                out.extend_from_slice(head.as_str().as_bytes());
            },
            None => {
                out.extend_from_slice("<none>".as_bytes());
            },
        }
        out.push(10);
        assert(out@ =~= old(out)@ + head_lines(self@));
    }

    /// Appends the lines of the capabilities.
    fn push_capabilities(&self, out: &mut Vec<u8>)
        ensures
            final(out)@ == old(out)@ + capability_lines(self@),
    {
        out.extend_from_slice("\nCapabilities:\n".as_bytes());
        push_flags(out, self);
        push_fields(out, self);
        push_others(out, self);
        assert(out@ =~= old(out)@ + capability_lines(self@));
    }

    /// Appends the lines of the references.
    fn push_references(&self, out: &mut Vec<u8>)
        ensures
            final(out)@ == old(out)@ + reference_lines(self@),
    {
        out.extend_from_slice("\nRefs:\n".as_bytes());
        push_refs(out, self);
        out.extend_from_slice("-------------------------\n\n".as_bytes());
        assert(out@ =~= old(out)@ + reference_lines(self@));
    }

    /// What the advertisement is shown as.
    pub fn print_debug(&self) -> (text: Vec<u8>)
        ensures
            text@ == advertisement_text(self@),
    {
        let mut text: Vec<u8> = Vec::new();
        self.push_head(&mut text);
        self.push_capabilities(&mut text);
        self.push_references(&mut text);
        assert(text@ =~= advertisement_text(self@));
        text
    }
}

} // verus!
