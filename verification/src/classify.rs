//! Device descriptors and their classification.
//!
//! A discovered input node is classified as a keyboard-like device or a touch
//! surface.  Descriptors carry an identity (the node's path or name) whose
//! lexical order is total; the grouping algorithm sorts by it, and a group's
//! descriptor sequence is its identity key.

use vstd::prelude::*;
use vstd::string::StringSliceAdditionalSpecFns;

verus! {

/// The two kinds of source device the remapper understands.
#[derive(Clone, Copy, Debug, Hash, PartialEq, Eq, Structural)]
pub enum DeviceType {
    /// A trackpad; becomes one stick and four buttons.
    Pad,
    /// Something with keys; each key becomes a button.
    Keys,
}

/// A classified device: its kind plus the path it was discovered under.
#[derive(Debug)]
pub struct Device {
    pub device: DeviceType,
    pub path: String,
}

/// Sort rank of a device kind: keyboards order before pads.
pub open spec fn kind_rank(t: DeviceType) -> int {
    match t {
        DeviceType::Keys => 0,
        DeviceType::Pad => 1,
    }
}

/// The mathematical content of a descriptor: its kind's rank and the
/// characters of its identity.  Two devices with equal reps are
/// interchangeable everywhere in the orchestrator.
pub open spec fn dev_rep(d: Device) -> (int, Seq<char>) {
    (kind_rank(d.device), d.path@)
}

/// The rep sequence of a descriptor sequence.
pub open spec fn dev_reps(s: Seq<Device>) -> Seq<(int, Seq<char>)> {
    s.map_values(|d: Device| dev_rep(d))
}

/// Lexicographic order on character sequences, by code point.
pub open spec fn lex_le(a: Seq<char>, b: Seq<char>) -> bool
    decreases a.len(),
{
    if a.len() == 0 {
        true
    } else if b.len() == 0 {
        false
    } else if a[0] == b[0] {
        lex_le(a.drop_first(), b.drop_first())
    } else {
        (a[0] as int) < (b[0] as int)
    }
}

/// Total order on descriptor reps: by kind rank, then identity.
pub open spec fn rep_le(a: (int, Seq<char>), b: (int, Seq<char>)) -> bool {
    a.0 < b.0 || (a.0 == b.0 && lex_le(a.1, b.1))
}

/// The order as a first-class spec function, shared by every use so that
/// sortedness statements coincide syntactically.
pub open spec fn rep_order() -> spec_fn((int, Seq<char>), (int, Seq<char>)) -> bool {
    |a: (int, Seq<char>), b: (int, Seq<char>)| rep_le(a, b)
}

pub proof fn lemma_lex_le_connected(a: Seq<char>, b: Seq<char>)
    ensures
        lex_le(a, b) || lex_le(b, a),
    decreases a.len(),
{
    if a.len() == 0 || b.len() == 0 {
    } else if a[0] == b[0] {
        lemma_lex_le_connected(a.drop_first(), b.drop_first());
    }
}

pub proof fn lemma_lex_le_antisymmetric(a: Seq<char>, b: Seq<char>)
    requires
        lex_le(a, b),
        lex_le(b, a),
    ensures
        a == b,
    decreases a.len(),
{
    if a.len() == 0 {
        assert(b.len() == 0);
        assert(a =~= b);
    } else {
        assert(b.len() != 0);
        assert(a[0] == b[0]);
        lemma_lex_le_antisymmetric(a.drop_first(), b.drop_first());
        assert(a.drop_first().len() == b.drop_first().len());
        assert forall|i: int| 0 <= i < a.len() implies a[i] == b[i] by {
            if i > 0 {
                assert(a[i] == a.drop_first()[i - 1]);
                assert(b[i] == b.drop_first()[i - 1]);
            }
        }
        assert(a =~= b);
    }
}

pub proof fn lemma_lex_le_transitive(a: Seq<char>, b: Seq<char>, c: Seq<char>)
    requires
        lex_le(a, b),
        lex_le(b, c),
    ensures
        lex_le(a, c),
    decreases a.len(),
{
    if a.len() == 0 {
    } else {
        assert(b.len() != 0);
        if b.len() != 0 && c.len() != 0 {
            if a[0] == b[0] && b[0] == c[0] {
                lemma_lex_le_transitive(a.drop_first(), b.drop_first(), c.drop_first());
            }
        }
    }
}

/// The rep order is a total ordering in the sense of `vstd::relations`.
pub proof fn lemma_rep_order_total()
    ensures
        vstd::relations::total_ordering(rep_order()),
{
    let leq = rep_order();
    assert forall|a: (int, Seq<char>), b: (int, Seq<char>)| #[trigger] leq(a, b) && leq(b, a)
        implies a == b by {
        lemma_lex_le_antisymmetric(a.1, b.1);
    }
    assert forall|a: (int, Seq<char>), b: (int, Seq<char>), c: (int, Seq<char>)|
        #[trigger] leq(a, b) && #[trigger] leq(b, c) implies leq(a, c) by {
        if a.0 == b.0 && b.0 == c.0 {
            lemma_lex_le_transitive(a.1, b.1, c.1);
        }
    }
    assert forall|a: (int, Seq<char>), b: (int, Seq<char>)|
        #[trigger] leq(a, b) || #[trigger] leq(b, a) by {
        if a.0 == b.0 {
            lemma_lex_le_connected(a.1, b.1);
        }
    }
}

/// Executable lexicographic comparison of two identities.
pub fn str_le_exec(a: &String, b: &String) -> (r: bool)
    ensures
        r == lex_le(a@, b@),
{
    let alen = a.as_str().unicode_len();
    let blen = b.as_str().unicode_len();
    let mut i: usize = 0;
    proof {
        assert(a@.skip(0) =~= a@);
        assert(b@.skip(0) =~= b@);
    }
    loop
        invariant
            i <= alen,
            i <= blen,
            alen == a@.len(),
            blen == b@.len(),
            lex_le(a@, b@) == lex_le(a@.skip(i as int), b@.skip(i as int)),
        decreases alen - i,
    {
        if i == alen {
            proof {
                assert(a@.skip(i as int).len() == 0);
            }
            return true;
        }
        if i == blen {
            proof {
                assert(b@.skip(i as int).len() == 0);
                assert(a@.skip(i as int).len() != 0);
            }
            return false;
        }
        let ca = a.as_str().get_char(i);
        let cb = b.as_str().get_char(i);
        proof {
            let sa = a@.skip(i as int);
            let sb = b@.skip(i as int);
            assert(sa[0] == a@[i as int]);
            assert(sb[0] == b@[i as int]);
            assert(sa.drop_first() =~= a@.skip(i as int + 1));
            assert(sb.drop_first() =~= b@.skip(i as int + 1));
        }
        if ca == cb {
            i = i + 1;
        } else {
            return (ca as u32) < (cb as u32);
        }
    }
}

/// Executable comparison of two descriptors in the rep order.
pub fn device_le(a: &Device, b: &Device) -> (r: bool)
    ensures
        r == rep_le(dev_rep(*a), dev_rep(*b)),
{
    let ra: u8 = match a.device {
        DeviceType::Keys => 0,
        DeviceType::Pad => 1,
    };
    let rb: u8 = match b.device {
        DeviceType::Keys => 0,
        DeviceType::Pad => 1,
    };
    if ra < rb {
        true
    } else if ra > rb {
        false
    } else {
        str_le_exec(&a.path, &b.path)
    }
}

/// Executable equality of two descriptors at the rep level.
pub fn device_eq(a: &Device, b: &Device) -> (r: bool)
    ensures
        r == (dev_rep(*a) == dev_rep(*b)),
{
    let ka = match a.device {
        DeviceType::Keys => false,
        DeviceType::Pad => true,
    };
    let kb = match b.device {
        DeviceType::Keys => false,
        DeviceType::Pad => true,
    };
    if ka != kb {
        return false;
    }
    let r = a.path == b.path;
    proof {
        if a.path@ == b.path@ {
            assert(dev_rep(*a) == dev_rep(*b));
        }
    }
    r
}

/// A structured device-node name of the attribute policy:
/// `<physical-path>:<configuration>.<interface><suffix>`, where the
/// configuration is one digit, the interface one or more digits, and the
/// suffix a dash followed by lowercase letters and dashes.
#[derive(Debug)]
pub struct UsbPathParts {
    pub path: String,
    pub configuration: usize,
    pub interface: usize,
    pub suffix: String,
}

pub open spec fn is_digit(c: char) -> bool {
    ('0' as int) <= c as int <= ('9' as int)
}

pub open spec fn digit_val(c: char) -> int {
    c as int - ('0' as int)
}

pub open spec fn is_suffix_char(c: char) -> bool {
    (('a' as int) <= c as int <= ('z' as int)) || c == '-'
}

/// The numeric value of a digit sequence, most significant first.
pub open spec fn digits_val(s: Seq<char>) -> int
    decreases s.len(),
{
    if s.len() == 0 {
        0
    } else {
        10 * digits_val(s.drop_last()) + digit_val(s.last())
    }
}

pub proof fn lemma_digits_val_nonneg(s: Seq<char>)
    requires
        forall|m: int| 0 <= m < s.len() ==> is_digit(#[trigger] s[m]),
    ensures
        digits_val(s) >= 0,
    decreases s.len(),
{
    if s.len() > 0 {
        lemma_digits_val_nonneg(s.drop_last());
    }
}

/// Appending digits never decreases the value.
pub proof fn lemma_digits_val_extend(s: Seq<char>, t: Seq<char>)
    requires
        forall|m: int| 0 <= m < s.len() ==> is_digit(#[trigger] s[m]),
        forall|m: int| 0 <= m < t.len() ==> is_digit(#[trigger] t[m]),
        s.len() <= t.len(),
        forall|m: int| 0 <= m < s.len() ==> s[m] == t[m],
    ensures
        digits_val(s) <= digits_val(t),
    decreases t.len(),
{
    if t.len() > s.len() {
        lemma_digits_val_extend(s, t.drop_last());
        lemma_digits_val_nonneg(t.drop_last());
        assert(digits_val(t) == 10 * digits_val(t.drop_last()) + digit_val(t.last()));
        assert(digit_val(t.last()) >= 0);
    } else {
        assert(s =~= t);
    }
}

/// The name decomposes at colon position `i` and dash position `k`:
/// `s[..i]` is the physical path, `s[i+1]` the configuration digit,
/// `s[i+2] == '.'`, `s[i+3..k]` the non-empty interface digits, and
/// `s[k..]` the suffix (a dash plus at least one lowercase-or-dash char).
pub open spec fn split_at(s: Seq<char>, i: int, k: int) -> bool {
    &&& 0 <= i
    &&& i + 4 <= k
    &&& k + 2 <= s.len()
    &&& s[i] == ':'
    &&& is_digit(s[i + 1])
    &&& s[i + 2] == '.'
    &&& forall|m: int| i + 3 <= m < k ==> is_digit(#[trigger] s[m])
    &&& s[k] == '-'
    &&& forall|m: int| k + 1 <= m < s.len() ==> is_suffix_char(#[trigger] s[m])
}

/// The decomposition is unique: suffix characters exclude colons, dots and
/// digits, so only one colon can head a valid tail, and the dash position is
/// the first non-digit after it.
pub proof fn lemma_split_unique(s: Seq<char>, i1: int, k1: int, i2: int, k2: int)
    requires
        split_at(s, i1, k1),
        split_at(s, i2, k2),
    ensures
        i1 == i2,
        k1 == k2,
{
    if i1 < i2 {
        assert(s[i2] == ':');
        if i2 == i1 + 1 {
            assert(is_digit(s[i1 + 1]));
        } else if i2 == i1 + 2 {
        } else if i2 < k1 {
            assert(is_digit(s[i2]));
        } else if i2 == k1 {
        } else {
            assert(is_suffix_char(s[i2]));
        }
        assert(false);
    }
    if i2 < i1 {
        assert(s[i1] == ':');
        if i1 == i2 + 1 {
            assert(is_digit(s[i2 + 1]));
        } else if i1 == i2 + 2 {
        } else if i1 < k2 {
            assert(is_digit(s[i1]));
        } else if i1 == k2 {
        } else {
            assert(is_suffix_char(s[i1]));
        }
        assert(false);
    }
    if k1 < k2 {
        assert(is_digit(s[k1]));
        assert(s[k1] == '-');
        assert(false);
    }
    if k2 < k1 {
        assert(is_digit(s[k2]));
        assert(s[k2] == '-');
        assert(false);
    }
}

/// Parses a device-node name of the attribute policy.  Succeeds exactly
/// when the name decomposes per [`split_at`] and the interface number fits
/// the machine word, and then returns the unique decomposition.
#[verifier::loop_isolation(false)]
pub fn parse_usb_path(name: &str) -> (r: Option<UsbPathParts>)
    ensures
        match r {
            Some(parts) => exists|i: int, k: int|
                #[trigger] split_at(name@, i, k) && parts.path@ == name@.take(i)
                    && parts.configuration as int == digit_val(name@[i + 1])
                    && parts.interface as int == digits_val(name@.subrange(i + 3, k))
                    && parts.suffix@ == name@.skip(k),
            None => forall|i: int, k: int|
                #[trigger] split_at(name@, i, k) ==> digits_val(name@.subrange(i + 3, k))
                    > usize::MAX as int,
        },
{
    let len = name.unicode_len();
    // the colon of a valid decomposition is necessarily the last colon
    let mut ci: usize = len;
    let mut m: usize = len;
    while m > 0
        invariant
            m <= len,
            ci <= len,
            ci == len ==> forall|j: int| m <= j < len ==> name@[j] != ':',
            ci < len ==> m <= ci && name@[ci as int] == ':' && forall|j: int|
                (ci as int) < j < len ==> name@[j] != ':',
        decreases m,
    {
        m = m - 1;
        if ci == len {
            let c = name.get_char(m);
            if c == ':' {
                ci = m;
            }
        }
    }
    if ci == len {
        proof {
            assert forall|i: int, k: int| !split_at(name@, i, k) by {
                if split_at(name@, i, k) {
                    assert(name@[i] == ':');
                }
            }
        }
        return None;
    }
    let i = ci;
    proof {
        // no colon after i
        assert(forall|j: int| (i as int) < j < len ==> name@[j] != ':');
    }
    // structure after the colon
    if len - i <= 4 {
        proof {
            lemma_no_other_split(name@, i as int);
        }
        return None;
    }
    let c1 = name.get_char(i + 1);
    if !(c1 >= '0' && c1 <= '9') {
        proof {
            lemma_no_other_split(name@, i as int);
        }
        return None;
    }
    let c2 = name.get_char(i + 2);
    if c2 != '.' {
        proof {
            lemma_no_other_split(name@, i as int);
        }
        return None;
    }
    // interface digits
    let mut k: usize = i + 3;
    let mut stop = false;
    while k < len && !stop
        invariant
            i + 3 <= k <= len,
            forall|j: int| (i as int) + 3 <= j < k ==> is_digit(#[trigger] name@[j]),
            stop ==> k < len && !is_digit(name@[k as int]),
        decreases len - k + (if stop { 0int } else { 1int }),
    {
        let c = name.get_char(k);
        if c >= '0' && c <= '9' {
            k = k + 1;
        } else {
            stop = true;
        }
    }
    proof {
        assert(k < len ==> !is_digit(name@[k as int]));
    }
    if k == i + 3 || k >= len {
        proof {
            lemma_no_other_split(name@, i as int);
            assert forall|i2: int, k2: int| !split_at(name@, i2, k2) by {
                if split_at(name@, i2, k2) {
                    assert(i2 == i as int);
                    if k as int == (i as int) + 3 {
                        assert(is_digit(name@[(i as int) + 3]));
                    } else {
                        assert(k2 < len);
                        if k2 < k as int {
                            assert(name@[k2] == '-' && is_digit(name@[k2]));
                        } else {
                            assert(is_digit(name@[k as int]) || k as int >= len);
                        }
                    }
                }
            }
        }
        return None;
    }
    let ck = name.get_char(k);
    if ck != '-' {
        proof {
            lemma_no_other_split(name@, i as int);
            assert forall|i2: int, k2: int| !split_at(name@, i2, k2) by {
                if split_at(name@, i2, k2) {
                    assert(i2 == i as int);
                    if k2 < k as int {
                        assert(is_digit(name@[k2]));
                    } else if k2 == k as int {
                    } else {
                        assert(is_digit(name@[k as int]));
                    }
                }
            }
        }
        return None;
    }
    if k + 1 >= len {
        proof {
            lemma_no_other_split(name@, i as int);
            assert forall|i2: int, k2: int| !split_at(name@, i2, k2) by {
                if split_at(name@, i2, k2) {
                    assert(i2 == i as int);
                    if k2 < k as int {
                        assert(is_digit(name@[k2]));
                    } else if k2 > k as int {
                        assert(is_digit(name@[k as int]));
                    }
                }
            }
        }
        return None;
    }
    // suffix characters
    let mut m2: usize = k + 1;
    while m2 < len
        invariant
            k + 1 <= m2 <= len,
            len == name@.len(),
            forall|j: int| (k as int) + 1 <= j < m2 ==> is_suffix_char(#[trigger] name@[j]),
        decreases len - m2,
    {
        let c = name.get_char(m2);
        let ok = (c >= 'a' && c <= 'z') || c == '-';
        if !ok {
            proof {
                lemma_no_other_split(name@, i as int);
                assert(!is_suffix_char(name@[m2 as int]));
                assert forall|i2: int, k2: int| !split_at(name@, i2, k2) by {
                    if split_at(name@, i2, k2) {
                        assert(i2 == i as int);
                        if k2 < k as int {
                            assert(is_digit(name@[k2]));
                        } else if k2 > k as int {
                            assert(is_digit(name@[k as int]));
                        } else {
                            assert(is_suffix_char(name@[m2 as int]));
                        }
                    }
                }
            }
            return None;
        }
        m2 = m2 + 1;
    }
    proof {
        assert(split_at(name@, i as int, k as int));
    }
    // interface value
    let mut val: usize = 0;
    let mut dpos: usize = i + 3;
    proof {
        assert(name@.subrange((i as int) + 3, (i as int) + 3) =~= Seq::<char>::empty());
    }
    while dpos < k
        invariant
            i + 3 <= dpos <= k,
            k < len,
            len == name@.len(),
            split_at(name@, i as int, k as int),
            val as int == digits_val(name@.subrange((i as int) + 3, dpos as int)),
        decreases k - dpos,
    {
        let c = name.get_char(dpos);
        proof {
            assert(is_digit(name@[dpos as int]));
        }
        let d: usize = (c as u32 as usize) - 48;
        if val > (usize::MAX - d) / 10 {
            proof {
                lemma_interface_overflow(name@, i as int, k as int, dpos as int, val as int, d as int);
            }
            return None;
        }
        val = val * 10 + d;
        dpos = dpos + 1;
        proof {
            let sub = name@.subrange((i as int) + 3, dpos as int);
            assert(sub.drop_last() =~= name@.subrange((i as int) + 3, (dpos as int) - 1));
            assert(sub.last() == name@[(dpos as int) - 1]);
        }
    }
    let cfg = name.get_char(i + 1);
    let cfg_val: usize = (cfg as u32 as usize) - 48;
    let path = String::from_str(name.substring_char(0, i));
    let suffix = String::from_str(name.substring_char(k, len));
    proof {
        assert(name@.take(i as int) =~= name@.subrange(0, i as int));
        assert(name@.skip(k as int) =~= name@.subrange(k as int, len as int));
        assert(name@.subrange((i as int) + 3, k as int) == name@.subrange(
            (i as int) + 3,
            dpos as int,
        ));
    }
    Some(UsbPathParts { path, configuration: cfg_val, interface: val, suffix })
}

/// Any valid decomposition shares the last colon.
proof fn lemma_no_other_split(s: Seq<char>, i: int)
    requires
        0 <= i < s.len(),
        s[i] == ':',
        forall|j: int| i < j < s.len() ==> s[j] != ':',
    ensures
        forall|i2: int, k2: int| #[trigger] split_at(s, i2, k2) ==> i2 == i,
{
    assert forall|i2: int, k2: int| #[trigger] split_at(s, i2, k2) implies i2 == i by {
        if i2 > i {
            assert(s[i2] == ':');
        } else if i2 < i {
            // i lies inside the structured tail of i2, which has no colon
            if i == i2 + 1 {
                assert(is_digit(s[i2 + 1]));
            } else if i == i2 + 2 {
                assert(s[i2 + 2] == '.');
            } else if i < k2 {
                assert(is_digit(s[i]));
            } else if i == k2 {
                assert(s[k2] == '-');
            } else {
                assert(is_suffix_char(s[i]));
            }
            assert(false);
        }
    }
}

/// If the running interface value is about to overflow, every valid
/// decomposition's interface exceeds the machine word.
proof fn lemma_interface_overflow(s: Seq<char>, i: int, k: int, dpos: int, val: int, d: int)
    requires
        split_at(s, i, k),
        i + 3 <= dpos < k,
        val == digits_val(s.subrange(i + 3, dpos)),
        d == digit_val(s[dpos]),
        10 * val + d > usize::MAX as int,
    ensures
        forall|i2: int, k2: int| #[trigger] split_at(s, i2, k2) ==> digits_val(
            s.subrange(i2 + 3, k2),
        ) > usize::MAX as int,
{
    let cur = s.subrange(i + 3, dpos + 1);
    assert(cur.drop_last() =~= s.subrange(i + 3, dpos));
    assert(cur.last() == s[dpos]);
    assert(digits_val(cur) == 10 * val + d);
    let full = s.subrange(i + 3, k);
    lemma_digits_val_extend(cur, full);
    assert forall|i2: int, k2: int| #[trigger] split_at(s, i2, k2) implies digits_val(
        s.subrange(i2 + 3, k2),
    ) > usize::MAX as int by {
        lemma_split_unique(s, i, k, i2, k2);
    }
}

/// Whether `s` ends with `t`.
pub open spec fn spec_ends_with(s: Seq<char>, t: Seq<char>) -> bool {
    s.len() >= t.len() && s.skip(s.len() - t.len()) == t
}

/// Executable suffix test over characters.
#[verifier::loop_isolation(false)]
pub fn str_ends_with(s: &str, t: &str) -> (r: bool)
    ensures
        r == spec_ends_with(s@, t@),
{
    let sl = s.unicode_len();
    let tl = t.unicode_len();
    if sl < tl {
        return false;
    }
    let off = sl - tl;
    let mut i: usize = 0;
    while i < tl
        invariant
            i <= tl,
            forall|j: int| 0 <= j < i ==> s@[off + j] == t@[j],
        decreases tl - i,
    {
        let cs = s.get_char(off + i);
        let ct = t.get_char(i);
        if cs != ct {
            proof {
                assert(s@.skip(off as int)[i as int] == s@[off + i as int]);
            }
            return false;
        }
        i = i + 1;
    }
    proof {
        assert(s@.skip(off as int) =~= t@);
    }
    true
}

/// First-stage attribute-policy decision from a parsed suffix.
#[derive(Clone, Copy, Debug, PartialEq, Eq, Structural)]
pub enum NodeClass {
    /// A `-mouse`-suffixed node: accept as a pad only after the hardware
    /// attribute check confirms multi-touch capability.
    NeedsPadCheck,
    /// A keyboard node.
    Keys,
    /// Not input-relevant under this policy; silently skipped.
    Skip,
}

/// The attribute policy's suffix decision.
pub open spec fn spec_classify_suffix_attr(s: Seq<char>) -> NodeClass {
    if spec_ends_with(s, "-mouse"@) {
        NodeClass::NeedsPadCheck
    } else if spec_ends_with(s, "kbd"@) {
        NodeClass::Keys
    } else {
        NodeClass::Skip
    }
}

/// Classifies a parsed node suffix under the attribute policy.
pub fn classify_suffix_attr(suffix: &str) -> (r: NodeClass)
    ensures
        r == spec_classify_suffix_attr(suffix@),
{
    if str_ends_with(suffix, "-mouse") {
        NodeClass::NeedsPadCheck
    } else if str_ends_with(suffix, "kbd") {
        NodeClass::Keys
    } else {
        NodeClass::Skip
    }
}

/// The suffix policy: a device name must end with a fixed marker; anything
/// else is a hard classification error (`None`), because an unrecognized
/// device in the watched directory indicates a configuration problem.
pub open spec fn spec_classify_name(s: Seq<char>) -> Option<DeviceType> {
    if spec_ends_with(s, "keys"@) {
        Some(DeviceType::Keys)
    } else if spec_ends_with(s, "pad"@) {
        Some(DeviceType::Pad)
    } else {
        None
    }
}

/// Classifies a device name under the suffix policy.
pub fn classify_name_suffix(name: &str) -> (r: Option<DeviceType>)
    ensures
        r == spec_classify_name(name@),
{
    if str_ends_with(name, "keys") {
        Some(DeviceType::Keys)
    } else if str_ends_with(name, "pad") {
        Some(DeviceType::Pad)
    } else {
        None
    }
}

/// Whether `n` occurs in `h` starting at position `i`.
pub open spec fn matches_at(h: Seq<u8>, n: Seq<u8>, i: int) -> bool {
    0 <= i && i + n.len() <= h.len() && h.subrange(i, i + n.len()) == n
}

/// Whether `n` occurs anywhere in `h`.
pub open spec fn contains_sub(h: Seq<u8>, n: Seq<u8>) -> bool {
    exists|i: int| matches_at(h, n, i)
}

/// Relies on memmem's `TwoWaySearcher::new` plus `Searcher::search_in`:
/// returns the starting index of the first occurrence of the needle in the
/// haystack, or `None` when the needle does not occur (an empty needle
/// matches at zero).
#[verifier::external_body]
fn find_sub(haystack: &[u8], needle: &[u8]) -> (r: Option<usize>)
    ensures
        match r {
            Some(i) => matches_at(haystack@, needle@, i as int) && forall|j: int|
                0 <= j < i ==> !matches_at(haystack@, needle@, j),
            None => forall|j: int| !matches_at(haystack@, needle@, j),
        },
{
    memmem::Searcher::search_in(&memmem::TwoWaySearcher::new(needle), haystack)
}

/// The attribute fragment whose presence marks a multi-touch device.
pub open spec fn pad_marker() -> Seq<u8> {
    "DRIVERS==\"hid-multitouch\"".spec_bytes()
}

/// Decides whether a `-mouse`-suffixed node is a genuine touch surface:
/// its hardware attribute listing must name the multi-touch driver.  Plain
/// mice fail this check and are skipped.
pub fn pad_attrs_confirm(attrs: &[u8]) -> (r: bool)
    ensures
        r == contains_sub(attrs@, pad_marker()),
{
    let needle = "DRIVERS==\"hid-multitouch\"".as_bytes();
    match find_sub(attrs, needle) {
        Some(_) => true,
        None => false,
    }
}

/// One surviving node candidate of the attribute policy, before per-device
/// reduction: a physical path, its rank within that path, the classified
/// kind, and the node name.
#[derive(Debug)]
pub struct ScanEntry {
    pub physical: String,
    pub configuration: usize,
    pub interface: usize,
    pub device: DeviceType,
    pub name: String,
}

/// The rank of a candidate: configuration and interface first (highest
/// wins), then kind and name as the tie-break.
pub open spec fn cand_rep(e: ScanEntry) -> (int, int, int, Seq<char>) {
    (e.configuration as int, e.interface as int, kind_rank(e.device), e.name@)
}

/// Candidate order, lexicographic on [`cand_rep`].
pub open spec fn cand_le(a: (int, int, int, Seq<char>), b: (int, int, int, Seq<char>)) -> bool {
    if a.0 != b.0 {
        a.0 < b.0
    } else if a.1 != b.1 {
        a.1 < b.1
    } else if a.2 != b.2 {
        a.2 < b.2
    } else {
        lex_le(a.3, b.3)
    }
}

/// Executable candidate comparison.
pub fn cand_le_exec(a: &ScanEntry, b: &ScanEntry) -> (r: bool)
    ensures
        r == cand_le(cand_rep(*a), cand_rep(*b)),
{
    if a.configuration != b.configuration {
        a.configuration < b.configuration
    } else if a.interface != b.interface {
        a.interface < b.interface
    } else {
        let ra: u8 = match a.device {
            DeviceType::Keys => 0,
            DeviceType::Pad => 1,
        };
        let rb: u8 = match b.device {
            DeviceType::Keys => 0,
            DeviceType::Pad => 1,
        };
        if ra != rb {
            ra < rb
        } else {
            str_le_exec(&a.name, &b.name)
        }
    }
}

/// The distinct physical paths of a scan, in first-appearance order.
pub open spec fn distinct_paths(entries: Seq<ScanEntry>) -> Seq<Seq<char>>
    decreases entries.len(),
{
    if entries.len() == 0 {
        Seq::empty()
    } else {
        let pre = distinct_paths(entries.drop_last());
        if pre.contains(entries.last().physical@) {
            pre
        } else {
            pre.push(entries.last().physical@)
        }
    }
}

/// `d` is a maximal candidate among the entries sharing physical path `p`.
pub open spec fn is_best_for(entries: Seq<ScanEntry>, p: Seq<char>, d: Device) -> bool {
    exists|i: int|
        0 <= i < entries.len() && (#[trigger] entries[i]).physical@ == p && entries[i].device
            == d.device && entries[i].name@ == d.path@ && forall|j: int|
            0 <= j < entries.len() && (#[trigger] entries[j]).physical@ == p ==> cand_le(
                cand_rep(entries[j]),
                cand_rep(entries[i]),
            )
}

/// Keeps exactly one node per physical path — the highest-ranked candidate
/// — so that one logical device survives per physical device; output order
/// is the paths' first appearance.
#[verifier::loop_isolation(false)]
#[verifier::rlimit(100)]
#[verifier::spinoff_prover]
pub fn pick_best(entries: Vec<ScanEntry>) -> (out: Vec<Device>)
    ensures
        out@.len() == distinct_paths(entries@).len(),
        forall|m: int|
            0 <= m < out@.len() ==> is_best_for(
                entries@,
                distinct_paths(entries@)[m],
                #[trigger] out@[m],
            ),
{
    let ghost orig = entries@;
    let mut work = entries;
    let wl = work.len();
    let mut bests: Vec<ScanEntry> = Vec::new();
    let mut t: usize = 0;
    proof {
        assert(orig.take(0) =~= Seq::empty());
        assert(orig.len() == wl as int);
        assert(orig.skip(0) =~= orig);
    }
    while work.len() > 0
        invariant
            orig.len() <= usize::MAX,
            t + work@.len() == orig.len(),
            work@ =~= orig.skip(t as int),
            bests@.len() == distinct_paths(orig.take(t as int)).len(),
            forall|k: int|
                0 <= k < bests@.len() ==> (#[trigger] bests@[k]).physical@ == distinct_paths(
                    orig.take(t as int),
                )[k],
            forall|k: int|
                0 <= k < bests@.len() ==> exists|ii: int|
                    0 <= ii < t && (#[trigger] orig[ii]) == (#[trigger] bests@[k]),
            forall|k: int, j: int|
                0 <= k < bests@.len() && 0 <= j < t && (#[trigger] orig[j]).physical@ == (
                #[trigger] bests@[k]).physical@ ==> cand_le(
                    cand_rep(orig[j]),
                    cand_rep(bests@[k]),
                ),
        decreases work.len(),
    {
        let e = work.remove(0);
        proof {
            assert(e == orig[t as int]);
            assert(work@ =~= orig.skip(t as int + 1));
        }
        let mut found: bool = false;
        let mut fidx: usize = 0;
        let mut k: usize = 0;
        while k < bests.len()
            invariant
                k <= bests@.len(),
                !found ==> forall|j: int|
                    0 <= j < k ==> (#[trigger] bests@[j]).physical@ != e.physical@,
                found ==> fidx < bests@.len() && bests@[fidx as int].physical@ == e.physical@,
            decreases bests.len() - k,
        {
            if !found {
                if bests[k].physical == e.physical {
                    found = true;
                    fidx = k;
                }
            }
            k = k + 1;
        }
        let ghost pre_bests = bests@;
        let ghost pre_distinct = distinct_paths(orig.take(t as int));
        let ghost ge = e;
        proof {
            assert(orig.take(t as int + 1).drop_last() =~= orig.take(t as int));
            assert(orig.take(t as int + 1).last() == orig[t as int]);
            lemma_distinct_paths_nodup(orig.take(t as int));
            lemma_distinct_paths_complete(orig.take(t as int));
            // membership in the distinct list coincides with the scan
            if found {
                assert(pre_distinct.contains(ge.physical@)) by {
                    assert(pre_distinct[fidx as int] == ge.physical@);
                }
            } else {
                if pre_distinct.contains(ge.physical@) {
                    let w = choose|w: int|
                        0 <= w < pre_distinct.len() && pre_distinct[w] == ge.physical@;
                    assert(pre_bests[w].physical@ == ge.physical@);
                    assert(false);
                }
            }
        }
        let ghost mut replaced = false;
        if found {
            let replace = cand_le_exec(&bests[fidx], &e);
            if replace {
                proof {
                    lemma_cand_le_total(orig, t as int, pre_bests[fidx as int], ge);
                    replaced = true;
                }
                bests.set(fidx, e);
            } else {
                proof {
                    lemma_cand_le_connected_entries(pre_bests[fidx as int], ge);
                    lemma_cand_le_total(orig, t as int, ge, pre_bests[fidx as int]);
                }
            }
        } else {
            bests.push(e);
        }
        t = t + 1;
        proof {
            lemma_cand_le_refl(cand_rep(ge));
            assert(orig[(t - 1) as int] == ge);
            assert forall|k2: int| 0 <= k2 < bests@.len() implies exists|ii: int|
                0 <= ii < t && (#[trigger] orig[ii]) == (#[trigger] bests@[k2]) by {
                if k2 < pre_bests.len() && bests@[k2] == pre_bests[k2] {
                    let ii = choose|ii: int|
                        0 <= ii < t - 1 && (#[trigger] orig[ii]) == pre_bests[k2];
                    assert(0 <= ii < t && orig[ii] == bests@[k2]);
                } else {
                    assert(bests@[k2] == ge);
                    assert(0 <= t - 1 < t && orig[(t - 1) as int] == bests@[k2]);
                }
            }
            assert forall|k2: int, j: int|
                0 <= k2 < bests@.len() && 0 <= j < t && (#[trigger] orig[j]).physical@ == (
                #[trigger] bests@[k2]).physical@ implies cand_le(
                cand_rep(orig[j]),
                cand_rep(bests@[k2]),
            ) by {
                if j < t - 1 {
                    if k2 < pre_bests.len() && bests@[k2] == pre_bests[k2] {
                        assert(cand_le(cand_rep(orig[j]), cand_rep(pre_bests[k2])));
                    } else if found && k2 == fidx as int {
                        // replaced: chain through the previous maximum
                        assert(bests@[k2] == ge);
                        assert(orig[j].physical@ == pre_bests[fidx as int].physical@);
                        assert(cand_le(cand_rep(orig[j]), cand_rep(pre_bests[fidx as int])));
                        assert(cand_le(cand_rep(orig[j]), cand_rep(ge)));
                    } else {
                        // freshly pushed: its path was not seen before
                        assert(bests@[k2] == ge);
                        assert(!found);
                        assert(distinct_paths(orig.take((t - 1) as int)).contains(
                            orig.take((t - 1) as int)[j].physical@,
                        ));
                        assert(pre_distinct.contains(orig[j].physical@));
                        assert(false);
                    }
                } else {
                    assert(orig[j] == ge);
                    if bests@[k2] == ge {
                        assert(cand_le(cand_rep(ge), cand_rep(ge)));
                    } else {
                        assert(k2 < pre_bests.len() && bests@[k2] == pre_bests[k2]);
                        assert(pre_bests[k2].physical@ == ge.physical@);
                        if found {
                            if k2 == fidx as int {
                                assert(!replaced);
                                assert(cand_le(cand_rep(ge), cand_rep(
                                    pre_bests[fidx as int],
                                )));
                            } else {
                                assert(pre_distinct[k2] == pre_distinct[fidx as int]);
                                assert(false);
                            }
                        } else {
                            assert(pre_distinct.contains(ge.physical@)) by {
                                assert(pre_distinct[k2] == ge.physical@);
                            }
                            assert(false);
                        }
                    }
                }
            }
        }
    }
    proof {
        assert(orig.take(t as int) =~= orig);
    }
    // map the winners to descriptors
    let mut out: Vec<Device> = Vec::new();
    let ghost final_bests = bests@;
    let mut w: usize = 0;
    while w < bests.len()
        invariant
            w <= bests@.len(),
            bests@ == final_bests,
            out@.len() == w,
            forall|m: int|
                0 <= m < w ==> (#[trigger] out@[m]).device == final_bests[m].device
                    && out@[m].path@ == final_bests[m].name@,
        decreases bests.len() - w,
    {
        let d = bests[w].device;
        let nm = clone_string(&bests[w].name);
        out.push(Device { device: d, path: nm });
        w = w + 1;
    }
    proof {
        assert forall|m: int| 0 <= m < out@.len() implies is_best_for(
            orig,
            distinct_paths(orig)[m],
            #[trigger] out@[m],
        ) by {
            let b = final_bests[m];
            let ii = choose|ii: int| 0 <= ii < orig.len() && orig[ii] == b;
            assert(orig[ii].physical@ == distinct_paths(orig)[m]);
            assert(orig[ii].device == out@[m].device);
            assert(orig[ii].name@ == out@[m].path@);
            assert forall|j: int|
                0 <= j < orig.len() && (#[trigger] orig[j]).physical@ == orig[ii].physical@
                implies cand_le(cand_rep(orig[j]), cand_rep(orig[ii])) by {
                assert(cand_le(cand_rep(orig[j]), cand_rep(b)));
                assert(cand_rep(orig[ii]) == cand_rep(b));
            }
        }
    }
    out
}

/// Copies a string.
pub fn clone_string(s: &String) -> (r: String)
    ensures
        r@ == s@,
{
    String::from_str(s.as_str())
}

/// The candidate order is reflexive.
proof fn lemma_cand_le_refl(a: (int, int, int, Seq<char>))
    ensures
        cand_le(a, a),
{
    lemma_lex_le_connected(a.3, a.3);
}

/// The distinct-path list holds no duplicates.
proof fn lemma_distinct_paths_nodup(entries: Seq<ScanEntry>)
    ensures
        forall|k1: int, k2: int|
            0 <= k1 < k2 < distinct_paths(entries).len() ==> #[trigger] distinct_paths(
                entries,
            )[k1] != #[trigger] distinct_paths(entries)[k2],
    decreases entries.len(),
{
    if entries.len() > 0 {
        lemma_distinct_paths_nodup(entries.drop_last());
        let pre = distinct_paths(entries.drop_last());
        if !pre.contains(entries.last().physical@) {
            assert forall|k1: int, k2: int|
                0 <= k1 < k2 < distinct_paths(entries).len() implies #[trigger] distinct_paths(
                entries,
            )[k1] != #[trigger] distinct_paths(entries)[k2] by {
                if k2 == pre.len() {
                    assert(distinct_paths(entries)[k1] == pre[k1]);
                    assert(pre.contains(pre[k1]));
                }
            }
        }
    }
}

/// Every scanned entry's path occurs in the distinct-path list.
proof fn lemma_distinct_paths_complete(entries: Seq<ScanEntry>)
    ensures
        forall|j: int|
            0 <= j < entries.len() ==> distinct_paths(entries).contains(
                (#[trigger] entries[j]).physical@,
            ),
    decreases entries.len(),
{
    if entries.len() > 0 {
        lemma_distinct_paths_complete(entries.drop_last());
        let pre = distinct_paths(entries.drop_last());
        assert forall|j: int| 0 <= j < entries.len() implies distinct_paths(entries).contains(
            (#[trigger] entries[j]).physical@,
        ) by {
            if j < entries.len() - 1 {
                assert(entries.drop_last()[j] == entries[j]);
                assert(pre.contains(entries[j].physical@));
                let w = choose|w: int| 0 <= w < pre.len() && pre[w] == entries[j].physical@;
                assert(distinct_paths(entries)[w] == entries[j].physical@);
            } else {
                if pre.contains(entries.last().physical@) {
                    let w = choose|w: int|
                        0 <= w < pre.len() && pre[w] == entries.last().physical@;
                    assert(distinct_paths(entries)[w] == entries.last().physical@);
                } else {
                    assert(distinct_paths(entries)[pre.len() as int]
                        == entries.last().physical@);
                }
            }
        }
    }
}

/// The candidate order is connected: one of the two directions holds.
proof fn lemma_cand_le_connected_entries(a: ScanEntry, b: ScanEntry)
    ensures
        cand_le(cand_rep(a), cand_rep(b)) || cand_le(cand_rep(b), cand_rep(a)),
{
    lemma_lex_le_connected(a.name@, b.name@);
}

/// Transitivity of the candidate order.
proof fn lemma_cand_le_trans(
    a: (int, int, int, Seq<char>),
    b: (int, int, int, Seq<char>),
    c: (int, int, int, Seq<char>),
)
    requires
        cand_le(a, b),
        cand_le(b, c),
    ensures
        cand_le(a, c),
{
    if a.0 == b.0 && b.0 == c.0 && a.1 == b.1 && b.1 == c.1 && a.2 == b.2 && b.2 == c.2 {
        lemma_lex_le_transitive(a.3, b.3, c.3);
    }
}

/// Transitivity of the candidate order, applied across a scanned prefix: if
/// every same-path entry is at most `lo` and `lo <= hi`, then every
/// same-path entry is at most `hi`.
proof fn lemma_cand_le_total(orig: Seq<ScanEntry>, t: int, lo: ScanEntry, hi: ScanEntry)
    requires
        cand_le(cand_rep(lo), cand_rep(hi)),
    ensures
        forall|j: int|
            0 <= j < orig.len() && cand_le(cand_rep(#[trigger] orig[j]), cand_rep(lo))
                ==> cand_le(cand_rep(orig[j]), cand_rep(hi)),
{
    assert forall|j: int|
        0 <= j < orig.len() && cand_le(cand_rep(#[trigger] orig[j]), cand_rep(lo)) implies cand_le(
        cand_rep(orig[j]),
        cand_rep(hi),
    ) by {
        lemma_cand_le_trans(cand_rep(orig[j]), cand_rep(lo), cand_rep(hi));
    }
}

} // verus!
