//! The attribute dictionary: a catalog mapping attribute codes to names
//! and types and vendor names to vendor IDs, loaded from line-oriented
//! text with `$INCLUDE` directives and cycle-safe visiting.

use vstd::prelude::*;
use vstd::map::*;

verus! {

/// One dictionary entry for an attribute code.
#[derive(Debug, Clone)]
pub struct RadiusAttributeDef {
    pub name: Vec<u8>,
    pub code: u32,
    pub vendor: Option<u32>,
    pub data_type: Vec<u8>,
}

/// The mathematical image of an entry.
pub struct AttrDefModel {
    pub name: Seq<u8>,
    pub code: u32,
    pub vendor: Option<u32>,
    pub data_type: Seq<u8>,
}

impl View for RadiusAttributeDef {
    type V = AttrDefModel;

    open spec fn view(&self) -> AttrDefModel {
        AttrDefModel {
            name: self.name@,
            code: self.code,
            vendor: self.vendor,
            data_type: self.data_type@,
        }
    }
}

/// One vendor entry: a name and its numeric ID.
#[derive(Debug, Clone)]
pub struct VendorEntry {
    pub name: Vec<u8>,
    pub id: u32,
}

/// A dictionary: attribute definitions keyed by code, vendors keyed by
/// name; in both, a later definition overwrites an earlier one.
#[derive(Debug)]
pub struct Dictionary {
    pub attributes: Vec<RadiusAttributeDef>,
    pub vendors: Vec<VendorEntry>,
}

/// The mathematical image of a dictionary: two maps.
pub struct DictModel {
    pub attributes: Map<u32, AttrDefModel>,
    pub vendors: Map<Seq<u8>, u32>,
}

/// The code-to-definition map an entry list denotes, folded in order so
/// that the last write wins.
pub open spec fn attrs_map(s: Seq<AttrDefModel>) -> Map<u32, AttrDefModel>
    decreases s.len(),
{
    if s.len() == 0 {
        Map::empty()
    } else {
        attrs_map(s.drop_last()).insert(s.last().code, s.last())
    }
}

/// The name-to-ID map a vendor list denotes, folded in order so that the
/// last write wins.
pub open spec fn vendors_map(s: Seq<(Seq<u8>, u32)>) -> Map<Seq<u8>, u32>
    decreases s.len(),
{
    if s.len() == 0 {
        Map::empty()
    } else {
        vendors_map(s.drop_last()).insert(s.last().0, s.last().1)
    }
}

/// The views of the attribute entries, in order.
pub open spec fn attr_def_views(s: Seq<RadiusAttributeDef>) -> Seq<AttrDefModel> {
    Seq::new(s.len(), |i: int| s[i]@)
}

/// The views of the vendor entries, in order.
pub open spec fn vendor_views(s: Seq<VendorEntry>) -> Seq<(Seq<u8>, u32)> {
    Seq::new(s.len(), |i: int| (s[i].name@, s[i].id))
}

impl View for Dictionary {
    type V = DictModel;

    open spec fn view(&self) -> DictModel {
        DictModel {
            attributes: attrs_map(attr_def_views(self.attributes@)),
            vendors: vendors_map(vendor_views(self.vendors@)),
        }
    }
}

/// Compares two byte strings.
pub fn bytes_eq(x: &[u8], y: &[u8]) -> (b: bool)
    ensures
        b == (x@ == y@),
{
    if x.len() != y.len() {
        assert(x@.len() != y@.len());
        return false;
    }
    let n: usize = x.len();
    let mut k: usize = 0;
    while k < n
        invariant
            k <= n,
            n == x@.len() == y@.len(),
            forall|t: int| 0 <= t < k ==> x@[t] == y@[t],
        decreases n - k,
    {
        if x[k] != y[k] {
            assert(x@[k as int] != y@[k as int]);
            return false;
        }
        k = k + 1;
    }
    assert(x@ =~= y@);
    true
}

impl Dictionary {
    /// An empty dictionary.
    pub fn new() -> (r: Dictionary)
        ensures
            r@.attributes == Map::<u32, AttrDefModel>::empty(),
            r@.vendors == Map::<Seq<u8>, u32>::empty(),
    {
        Dictionary { attributes: Vec::new(), vendors: Vec::new() }
    }

    /// Defines (or redefines) the attribute with `def`'s code.
    pub fn insert_attribute(&mut self, def: RadiusAttributeDef)
        ensures
            final(self)@.attributes == old(self)@.attributes.insert(def@.code, def@),
            final(self)@.vendors == old(self)@.vendors,
    {
        let ghost prev = attr_def_views(self.attributes@);
        self.attributes.push(def);
        proof {
            assert(attr_def_views(self.attributes@) =~= prev.push(def@));
            assert(attr_def_views(self.attributes@).drop_last() =~= prev);
        }
    }

    /// Defines (or redefines) the vendor with the given name.
    pub fn insert_vendor(&mut self, name: Vec<u8>, id: u32)
        ensures
            final(self)@.vendors == old(self)@.vendors.insert(name@, id),
            final(self)@.attributes == old(self)@.attributes,
    {
        let ghost prev = vendor_views(self.vendors@);
        let ghost nv = name@;
        self.vendors.push(VendorEntry { name, id });
        proof {
            assert(vendor_views(self.vendors@) =~= prev.push((nv, id)));
            assert(vendor_views(self.vendors@).drop_last() =~= prev);
        }
    }

    /// Looks an attribute definition up by code: the latest definition, or
    /// nothing where the code was never defined.
    pub fn get_attribute(&self, code: u32) -> (r: Option<&RadiusAttributeDef>)
        ensures
            match r {
                Some(d) => self@.attributes.contains_key(code) && d@ == self@.attributes[code],
                None => !self@.attributes.contains_key(code),
            },
    {
        let ghost entries = attr_def_views(self.attributes@);
        let n: usize = self.attributes.len();
        let mut k: usize = n;
        proof {
            assert(entries.take(n as int) =~= entries);
        }
        while k > 0
            invariant
                k <= n,
                n == self.attributes@.len(),
                entries == attr_def_views(self.attributes@),
                attrs_map(entries.take(k as int)).contains_key(code) == attrs_map(
                    entries,
                ).contains_key(code),
                attrs_map(entries.take(k as int)).contains_key(code)
                    ==> attrs_map(entries.take(k as int))[code] == attrs_map(entries)[code],
            decreases k,
        {
            k = k - 1;
            proof {
                assert(entries.take(k + 1).drop_last() =~= entries.take(k as int));
                assert(entries.take(k + 1).last() == entries[k as int]);
            }
            if self.attributes[k].code == code {
                assert(attrs_map(entries.take(k + 1)).contains_key(code));
                assert(attrs_map(entries.take(k + 1))[code] == entries[k as int]);
                return Some(&self.attributes[k]);
            }
            assert(attrs_map(entries.take(k + 1)).contains_key(code) == attrs_map(
                entries.take(k as int),
            ).contains_key(code));
        }
        proof {
            assert(entries.take(0) =~= Seq::<AttrDefModel>::empty());
            assert(!attrs_map(entries.take(0)).contains_key(code));
        }
        None
    }

    /// Looks a vendor ID up by name: the latest definition, or nothing
    /// where the name was never defined.
    pub fn get_vendor(&self, name: &[u8]) -> (r: Option<u32>)
        ensures
            match r {
                Some(id) => self@.vendors.contains_key(name@) && id == self@.vendors[name@],
                None => !self@.vendors.contains_key(name@),
            },
    {
        let ghost entries = vendor_views(self.vendors@);
        let n: usize = self.vendors.len();
        let mut k: usize = n;
        proof {
            assert(entries.take(n as int) =~= entries);
        }
        while k > 0
            invariant
                k <= n,
                n == self.vendors@.len(),
                entries == vendor_views(self.vendors@),
                vendors_map(entries.take(k as int)).contains_key(name@) == vendors_map(
                    entries,
                ).contains_key(name@),
                vendors_map(entries.take(k as int)).contains_key(name@)
                    ==> vendors_map(entries.take(k as int))[name@] == vendors_map(entries)[name@],
            decreases k,
        {
            k = k - 1;
            proof {
                assert(entries.take(k + 1).drop_last() =~= entries.take(k as int));
                assert(entries.take(k + 1).last() == entries[k as int]);
            }
            if bytes_eq(self.vendors[k].name.as_slice(), name) {
                assert(vendors_map(entries.take(k + 1)).contains_key(name@));
                assert(vendors_map(entries.take(k + 1))[name@] == entries[k as int].1);
                return Some(self.vendors[k].id);
            }
            assert(vendors_map(entries.take(k + 1)).contains_key(name@) == vendors_map(
                entries.take(k as int),
            ).contains_key(name@));
        }
        proof {
            assert(entries.take(0) =~= Seq::<(Seq<u8>, u32)>::empty());
            assert(!vendors_map(entries.take(0)).contains_key(name@));
        }
        None
    }
}

/// The value of an ASCII digit in either case, or -1 for a non-digit.
pub open spec fn digit_val(b: u8) -> int {
    if 48 <= b <= 57 {
        b - 48
    } else if 97 <= b <= 102 {
        b - 87
    } else if 65 <= b <= 70 {
        b - 55
    } else {
        -1
    }
}

/// A nonempty run of digits, each below the radix.
pub open spec fn valid_digits(s: Seq<u8>, radix: int) -> bool {
    s.len() > 0 && forall|i: int| 0 <= i < s.len() ==> 0 <= digit_val(#[trigger] s[i]) < radix
}

/// The number a digit run denotes in the given radix.
pub open spec fn digits_val(s: Seq<u8>, radix: int) -> int
    decreases s.len(),
{
    if s.len() == 0 {
        0
    } else {
        digits_val(s.drop_last(), radix) * radix + digit_val(s.last())
    }
}

/// A digit run's value only grows with its length.
pub proof fn lemma_digits_val_grows(s: Seq<u8>, radix: int, k: int)
    requires
        2 <= radix,
        0 <= k <= s.len(),
        forall|i: int| 0 <= i < s.len() ==> 0 <= digit_val(#[trigger] s[i]),
    ensures
        0 <= digits_val(s.take(k), radix) <= digits_val(s, radix),
    decreases s.len(), k,
{
    if s.len() == 0 {
        assert(s.take(k) =~= s);
    } else if k == s.len() {
        assert(s.take(k) =~= s);
        assert(s.drop_last() =~= s.take(s.len() - 1));
        lemma_digits_val_grows(s, radix, s.len() - 1);
    } else {
        let d = s.drop_last();
        assert(forall|i: int| 0 <= i < d.len() ==> 0 <= digit_val(#[trigger] d[i]));
        lemma_digits_val_grows(d, radix, k);
        assert(s.take(k) =~= d.take(k));
        assert(digits_val(d, radix) * radix >= digits_val(d, radix)) by (nonlinear_arith)
            requires
                digits_val(d, radix) >= 0,
                radix >= 2,
        ;
        assert(digits_val(d, radix) >= 0) by {
            lemma_digits_val_grows(d, radix, d.len() as int);
            assert(d.take(d.len() as int) =~= d);
        }
    }
}

/// Optional leading `+` sign, as the standard number parsers accept it.
pub open spec fn strip_plus(s: Seq<u8>) -> Seq<u8> {
    if s.len() > 0 && s[0] == 43 {
        s.skip(1)
    } else {
        s
    }
}

/// What parsing a numeric token yields: the token, after an optional `+`,
/// must be a nonempty digit run in the chosen radix — decimal, or
/// hexadecimal after a `0x`/`0X` prefix — whose value fits 32 bits.
pub open spec fn spec_parse_number(s: Seq<u8>) -> Option<u32> {
    if s.len() >= 2 && s[0] == 48 && (s[1] == 120 || s[1] == 88) {
        let d = strip_plus(s.skip(2));
        if valid_digits(d, 16) && digits_val(d, 16) <= u32::MAX {
            Some(digits_val(d, 16) as u32)
        } else {
            None
        }
    } else {
        let d = strip_plus(s);
        if valid_digits(d, 10) && digits_val(d, 10) <= u32::MAX {
            Some(digits_val(d, 10) as u32)
        } else {
            None
        }
    }
}

/// Parses the decimal digit run `s[from..]`.
fn parse_dec_digits(s: &[u8], from: usize) -> (r: Option<u32>)
    requires
        from <= s@.len(),
    ensures
        ({
            let d = s@.skip(from as int);
            match r {
                Some(v) => valid_digits(d, 10) && digits_val(d, 10) == v,
                None => !(valid_digits(d, 10) && digits_val(d, 10) <= u32::MAX),
            }
        }),
{
    let ghost d = s@.skip(from as int);
    let n: usize = s.len();
    if from >= n {
        assert(d.len() == 0);
        return None;
    }
    let mut acc: u32 = 0;
    let mut i: usize = from;
    while i < n
        invariant
            from <= i <= n,
            n == s@.len(),
            d == s@.skip(from as int),
            forall|t: int| 0 <= t < i - from ==> 0 <= digit_val(#[trigger] d[t]) < 10,
            acc == digits_val(d.take(i - from), 10),
        decreases n - i,
    {
        let b: u8 = s[i];
        assert(d[i - from] == b);
        if !(b >= 48 && b <= 57) {
            assert(!(0 <= digit_val(d[i - from]) < 10));
            return None;
        }
        let dv: u32 = (b - 48) as u32;
        assert(dv == digit_val(b));
        if acc > (u32::MAX - dv) / 10 {
            proof {
                assert(acc * 10 + dv > u32::MAX) by (nonlinear_arith)
                    requires
                        acc > (u32::MAX - dv) / 10,
                        dv <= 9,
                        acc >= 0,
                ;
                assert(d.take(i + 1 - from).drop_last() =~= d.take(i - from));
                assert(d.take(i + 1 - from).last() == d[i - from]);
                assert(digits_val(d.take(i + 1 - from), 10) > u32::MAX);
                if valid_digits(d, 10) {
                    lemma_digits_val_grows(d, 10, i + 1 - from);
                }
            }
            return None;
        }
        proof {
            assert(acc * 10 + dv <= u32::MAX) by (nonlinear_arith)
                requires
                    acc <= (u32::MAX - dv) / 10,
                    dv <= 9,
                    acc >= 0,
            ;
            assert(d.take(i + 1 - from).drop_last() =~= d.take(i - from));
            assert(d.take(i + 1 - from).last() == d[i - from]);
        }
        acc = acc * 10 + dv;
        i = i + 1;
    }
    assert(d.take(n - from) =~= d);
    Some(acc)
}

/// Parses the hexadecimal digit run `s[from..]`.
fn parse_hex_digits(s: &[u8], from: usize) -> (r: Option<u32>)
    requires
        from <= s@.len(),
    ensures
        ({
            let d = s@.skip(from as int);
            match r {
                Some(v) => valid_digits(d, 16) && digits_val(d, 16) == v,
                None => !(valid_digits(d, 16) && digits_val(d, 16) <= u32::MAX),
            }
        }),
{
    let ghost d = s@.skip(from as int);
    let n: usize = s.len();
    if from >= n {
        assert(d.len() == 0);
        return None;
    }
    let mut acc: u32 = 0;
    let mut i: usize = from;
    while i < n
        invariant
            from <= i <= n,
            n == s@.len(),
            d == s@.skip(from as int),
            forall|t: int| 0 <= t < i - from ==> 0 <= digit_val(#[trigger] d[t]) < 16,
            acc == digits_val(d.take(i - from), 16),
        decreases n - i,
    {
        let b: u8 = s[i];
        assert(d[i - from] == b);
        let dv: u32 = if b >= 48 && b <= 57 {
            (b - 48) as u32
        } else if b >= 97 && b <= 102 {
            (b - 87) as u32
        } else if b >= 65 && b <= 70 {
            (b - 55) as u32
        } else {
            assert(!(0 <= digit_val(d[i - from]) < 16));
            return None;
        };
        assert(dv == digit_val(b));
        if acc > (u32::MAX - dv) / 16 {
            proof {
                assert(acc * 16 + dv > u32::MAX) by (nonlinear_arith)
                    requires
                        acc > (u32::MAX - dv) / 16,
                        dv <= 15,
                        acc >= 0,
                ;
                assert(d.take(i + 1 - from).drop_last() =~= d.take(i - from));
                assert(d.take(i + 1 - from).last() == d[i - from]);
                assert(digits_val(d.take(i + 1 - from), 16) > u32::MAX);
                if valid_digits(d, 16) {
                    lemma_digits_val_grows(d, 16, i + 1 - from);
                }
            }
            return None;
        }
        proof {
            assert(acc * 16 + dv <= u32::MAX) by (nonlinear_arith)
                requires
                    acc <= (u32::MAX - dv) / 16,
                    dv <= 15,
                    acc >= 0,
            ;
            assert(d.take(i + 1 - from).drop_last() =~= d.take(i - from));
            assert(d.take(i + 1 - from).last() == d[i - from]);
        }
        acc = acc * 16 + dv;
        i = i + 1;
    }
    assert(d.take(n - from) =~= d);
    Some(acc)
}

/// Parses a numeric token, decimal or `0x`-prefixed hexadecimal.
pub fn parse_number(s: &[u8]) -> (r: Option<u32>)
    ensures
        r == spec_parse_number(s@),
{
    if s.len() >= 2 && s[0] == 48 && (s[1] == 120 || s[1] == 88) {
        let from: usize = if s.len() >= 3 && s[2] == 43 {
            3
        } else {
            2
        };
        proof {
            if s@.len() >= 3 && s@[2] == 43 {
                assert(strip_plus(s@.skip(2)) =~= s@.skip(3));
            } else {
                assert(strip_plus(s@.skip(2)) =~= s@.skip(2));
            }
        }
        parse_hex_digits(s, from)
    } else {
        let from: usize = if s.len() >= 1 && s[0] == 43 {
            1
        } else {
            0
        };
        proof {
            if s@.len() >= 1 && s@[0] == 43 {
                assert(strip_plus(s@) =~= s@.skip(1));
            } else {
                assert(strip_plus(s@) =~= s@.skip(0));
            }
        }
        parse_dec_digits(s, from)
    }
}

/// ASCII whitespace, as the line grammar splits on it.
pub open spec fn is_ws(b: u8) -> bool {
    b == 32 || b == 9 || b == 10 || b == 13 || b == 11 || b == 12
}

fn ws_byte(b: u8) -> (r: bool)
    ensures
        r == is_ws(b),
{
    b == 32 || b == 9 || b == 10 || b == 13 || b == 11 || b == 12
}

/// How many whitespace bytes the text starts with.
pub open spec fn lead_ws_count(s: Seq<u8>) -> int
    decreases s.len(),
{
    if s.len() == 0 {
        0
    } else if is_ws(s[0]) {
        1 + lead_ws_count(s.skip(1))
    } else {
        0
    }
}

/// A prefix of whitespace followed by a non-whitespace byte (or the end)
/// pins the leading-whitespace count down.
pub proof fn lemma_lead_ws(s: Seq<u8>, i: int)
    requires
        0 <= i <= s.len(),
        forall|k: int| 0 <= k < i ==> is_ws(#[trigger] s[k]),
        i < s.len() ==> !is_ws(s[i]),
    ensures
        lead_ws_count(s) == i,
    decreases i,
{
    if i == 0 {
    } else {
        assert(is_ws(s[0]));
        let tail = s.skip(1);
        assert(forall|k: int| 0 <= k < i - 1 ==> is_ws(#[trigger] tail[k]));
        lemma_lead_ws(tail, i - 1);
    }
}

/// The text with its leading whitespace removed.
pub open spec fn trimmed(s: Seq<u8>) -> Seq<u8> {
    s.skip(lead_ws_count(s))
}

/// The whitespace-separated tokens of the text, with `cur` the token under
/// construction.
pub open spec fn tokens_acc(s: Seq<u8>, cur: Seq<u8>) -> Seq<Seq<u8>>
    decreases s.len(),
{
    if s.len() == 0 {
        if cur.len() == 0 {
            Seq::empty()
        } else {
            seq![cur]
        }
    } else if is_ws(s[0]) {
        if cur.len() == 0 {
            tokens_acc(s.skip(1), Seq::empty())
        } else {
            seq![cur] + tokens_acc(s.skip(1), Seq::empty())
        }
    } else {
        tokens_acc(s.skip(1), cur.push(s[0]))
    }
}

/// The whitespace-separated tokens of the text.
pub open spec fn tokens(s: Seq<u8>) -> Seq<Seq<u8>> {
    tokens_acc(s, Seq::empty())
}

/// The views of a list of byte strings, in order.
pub open spec fn token_views(s: Seq<Vec<u8>>) -> Seq<Seq<u8>> {
    Seq::new(s.len(), |i: int| s[i]@)
}

/// Splits the text into its whitespace-separated tokens.
pub fn tokenize(s: &[u8]) -> (r: Vec<Vec<u8>>)
    ensures
        token_views(r@) == tokens(s@),
{
    let n: usize = s.len();
    let mut acc: Vec<Vec<u8>> = Vec::new();
    let mut cur: Vec<u8> = Vec::new();
    let mut i: usize = 0;
    proof {
        assert(s@.skip(0) =~= s@);
        assert(token_views(acc@) + tokens_acc(s@, Seq::empty()) =~= tokens(s@));
    }
    while i < n
        invariant
            i <= n,
            n == s@.len(),
            tokens(s@) == token_views(acc@) + tokens_acc(s@.skip(i as int), cur@),
        decreases n - i,
    {
        proof {
            assert(s@.skip(i as int).skip(1) =~= s@.skip(i + 1));
            assert(s@.skip(i as int)[0] == s@[i as int]);
        }
        if ws_byte(s[i]) {
            if cur.len() > 0 {
                let ghost pa = token_views(acc@);
                let ghost pc = cur@;
                assert(tokens_acc(s@.skip(i as int), pc) == seq![pc] + tokens_acc(
                    s@.skip(i + 1),
                    Seq::empty(),
                ));
                acc.push(cur);
                cur = Vec::new();
                proof {
                    assert(cur@ =~= Seq::<u8>::empty());
                    assert(token_views(acc@) =~= pa.push(pc));
                    assert(pa.push(pc) + tokens_acc(s@.skip(i + 1), Seq::empty()) =~= pa + (
                    seq![pc] + tokens_acc(s@.skip(i + 1), Seq::empty())));
                }
            } else {
                proof {
                    assert(cur@ =~= Seq::<u8>::empty());
                    assert(tokens_acc(s@.skip(i as int), cur@) == tokens_acc(
                        s@.skip(i + 1),
                        Seq::empty(),
                    ));
                }
            }
        } else {
            cur.push(s[i]);
        }
        i = i + 1;
    }
    assert(s@.skip(n as int).len() == 0);
    if cur.len() > 0 {
        let ghost pa = token_views(acc@);
        let ghost pc = cur@;
        acc.push(cur);
        proof {
            assert(token_views(acc@) =~= pa.push(pc));
            assert(pa.push(pc) =~= pa + seq![pc]);
        }
    } else {
        assert(token_views(acc@) + tokens_acc(s@.skip(n as int), cur@) =~= token_views(acc@));
    }
    acc
}

/// Whether the text carries the prefix.
pub open spec fn has_prefix(s: Seq<u8>, p: Seq<u8>) -> bool {
    s.len() >= p.len() && s.take(p.len() as int) == p
}

/// Tests whether the text carries the prefix.
pub fn starts_with_bytes(s: &[u8], p: &[u8]) -> (b: bool)
    ensures
        b == has_prefix(s@, p@),
{
    let m: usize = p.len();
    if s.len() < m {
        return false;
    }
    let mut k: usize = 0;
    while k < m
        invariant
            k <= m,
            m == p@.len() <= s@.len(),
            forall|t: int| 0 <= t < k ==> s@[t] == p@[t],
        decreases m - k,
    {
        if s[k] != p[k] {
            assert(s@[k as int] != p@[k as int]);
            assert(s@.take(m as int)[k as int] == s@[k as int]);
            return false;
        }
        k = k + 1;
    }
    assert(s@.take(m as int) =~= p@);
    true
}

/// Whether the token holds a dot — the nested vendor numbering this
/// dictionary grammar recognizes only to skip.
pub open spec fn has_dot(s: Seq<u8>) -> bool {
    exists|i: int| 0 <= i < s.len() && s[i] == 46
}

fn contains_dot(s: &[u8]) -> (b: bool)
    ensures
        b == has_dot(s@),
{
    let n: usize = s.len();
    let mut k: usize = 0;
    while k < n
        invariant
            k <= n,
            n == s@.len(),
            forall|t: int| 0 <= t < k ==> s@[t] != 46,
        decreases n - k,
    {
        if s[k] == 46 {
            assert(s@[k as int] == 46);
            return true;
        }
        k = k + 1;
    }
    false
}

/// The `$INCLUDE` keyword.
pub open spec fn kw_include() -> Seq<u8> {
    seq![36u8, 73u8, 78u8, 67u8, 76u8, 85u8, 68u8, 69u8]
}

/// The `ATTRIBUTE` keyword.
pub open spec fn kw_attribute() -> Seq<u8> {
    seq![65u8, 84u8, 84u8, 82u8, 73u8, 66u8, 85u8, 84u8, 69u8]
}

/// The `VENDOR` keyword.
pub open spec fn kw_vendor() -> Seq<u8> {
    seq![86u8, 69u8, 78u8, 68u8, 79u8, 82u8]
}

/// What one line of dictionary text means.
pub enum LineAction {
    /// An `$INCLUDE` with exactly one path token: that path.
    Include(Seq<u8>),
    /// A well-formed `ATTRIBUTE` line: the definition it carries.
    DefAttr(AttrDefModel),
    /// A well-formed `VENDOR` line: the name and ID it carries.
    DefVendor(Seq<u8>, u32),
    /// A blank line, a comment, a malformed or dotted definition, or any
    /// other directive: nothing.
    Nothing,
}

/// Reads one line: comments and blanks do nothing; `$INCLUDE <path>` names
/// a file; `ATTRIBUTE <name> <code> <type>` and `VENDOR <name> <id>`
/// define entries, except that malformed or dotted numbers make the line a
/// skipped one; any other directive is ignored.
pub open spec fn line_action(line: Seq<u8>) -> LineAction {
    let t = trimmed(line);
    if t.len() == 0 || t[0] == 35 {
        LineAction::Nothing
    } else if has_prefix(t, kw_include()) {
        let toks = tokens(t);
        if toks.len() == 2 {
            LineAction::Include(toks[1])
        } else {
            LineAction::Nothing
        }
    } else if has_prefix(t, kw_attribute()) {
        let toks = tokens(t);
        if toks.len() >= 4 && !has_dot(toks[2]) {
            match spec_parse_number(toks[2]) {
                Some(code) => LineAction::DefAttr(
                    AttrDefModel { name: toks[1], code, vendor: None, data_type: toks[3] },
                ),
                None => LineAction::Nothing,
            }
        } else {
            LineAction::Nothing
        }
    } else if has_prefix(t, kw_vendor()) {
        let toks = tokens(t);
        if toks.len() >= 3 && !has_dot(toks[2]) {
            match spec_parse_number(toks[2]) {
                Some(id) => LineAction::DefVendor(toks[1], id),
                None => LineAction::Nothing,
            }
        } else {
            LineAction::Nothing
        }
    } else {
        LineAction::Nothing
    }
}

impl Dictionary {
    /// Applies one line of dictionary text: definitions are inserted, an
    /// include hands its path back for the caller to fetch, everything
    /// else is skipped.
    pub fn apply_line(&mut self, line: &[u8]) -> (inc: Option<Vec<u8>>)
        ensures
            match line_action(line@) {
                LineAction::Include(p) => final(self)@.attributes == old(self)@.attributes
                    && final(self)@.vendors == old(self)@.vendors && (inc matches Some(v)
                    && v@ == p),
                LineAction::DefAttr(d) => final(self)@.attributes
                    == old(self)@.attributes.insert(d.code, d)
                    && final(self)@.vendors == old(self)@.vendors && inc is None,
                LineAction::DefVendor(nm, id) => final(self)@.vendors
                    == old(self)@.vendors.insert(nm, id)
                    && final(self)@.attributes == old(self)@.attributes && inc is None,
                LineAction::Nothing => final(self)@.attributes == old(self)@.attributes
                    && final(self)@.vendors == old(self)@.vendors && inc is None,
            },
    {
        let n: usize = line.len();
        let mut lead: usize = 0;
        while lead < n && ws_byte(line[lead])
            invariant
                lead <= n,
                n == line@.len(),
                forall|k: int| 0 <= k < lead ==> is_ws(#[trigger] line@[k]),
            decreases n - lead,
        {
            lead = lead + 1;
        }
        proof {
            lemma_lead_ws(line@, lead as int);
        }
        if lead == n {
            assert(trimmed(line@).len() == 0);
            return None;
        }
        let t: &[u8] = vstd::slice::slice_subrange(line, lead, n);
        assert(t@ == trimmed(line@));
        if t[0] == 35 {
            return None;
        }

        let kw_inc: [u8; 8] = [36, 73, 78, 67, 76, 85, 68, 69];
        let kw_attr: [u8; 9] = [65, 84, 84, 82, 73, 66, 85, 84, 69];
        let kw_ven: [u8; 6] = [86, 69, 78, 68, 79, 82];
        proof {
            assert(kw_inc@ =~= kw_include());
            assert(kw_attr@ =~= kw_attribute());
            assert(kw_ven@ =~= kw_vendor());
        }

        if starts_with_bytes(t, kw_inc.as_slice()) {
            let toks = tokenize(t);
            if toks.len() == 2 {
                assert(token_views(toks@)[1] == tokens(t@)[1]);
                let path: Vec<u8> = vstd::slice::slice_to_vec(toks[1].as_slice());
                return Some(path);
            }
            return None;
        }
        if starts_with_bytes(t, kw_attr.as_slice()) {
            let toks = tokenize(t);
            if toks.len() >= 4 {
                if contains_dot(toks[2].as_slice()) {
                    return None;
                }
                match parse_number(toks[2].as_slice()) {
                    Some(code) => {
                        assert(token_views(toks@)[1] == tokens(t@)[1]);
                        assert(token_views(toks@)[2] == tokens(t@)[2]);
                        assert(token_views(toks@)[3] == tokens(t@)[3]);
                        let name: Vec<u8> = vstd::slice::slice_to_vec(toks[1].as_slice());
                        let data_type: Vec<u8> = vstd::slice::slice_to_vec(toks[3].as_slice());
                        self.insert_attribute(
                            RadiusAttributeDef { name, code, vendor: None, data_type },
                        );
                        return None;
                    },
                    None => {
                        return None;
                    },
                }
            }
            return None;
        }
        if starts_with_bytes(t, kw_ven.as_slice()) {
            let toks = tokenize(t);
            if toks.len() >= 3 {
                if contains_dot(toks[2].as_slice()) {
                    return None;
                }
                match parse_number(toks[2].as_slice()) {
                    Some(id) => {
                        assert(token_views(toks@)[1] == tokens(t@)[1]);
                        assert(token_views(toks@)[2] == tokens(t@)[2]);
                        let name: Vec<u8> = vstd::slice::slice_to_vec(toks[1].as_slice());
                        self.insert_vendor(name, id);
                        return None;
                    },
                    None => {
                        return None;
                    },
                }
            }
            return None;
        }
        None
    }
}

/// A line with a single trailing carriage return removed, as happens to
/// every line a line feed terminates.
pub open spec fn strip_cr(l: Seq<u8>) -> Seq<u8> {
    if l.len() > 0 && l.last() == 13 {
        l.drop_last()
    } else {
        l
    }
}

/// The lines of the text, split at line feeds, each terminated line with a
/// trailing carriage return removed; `cur` is the partial line already
/// read, and a final line needs no terminator.
pub open spec fn lines_acc(s: Seq<u8>, cur: Option<Seq<u8>>) -> Seq<Seq<u8>>
    decreases s.len(),
{
    if s.len() == 0 {
        match cur {
            None => Seq::empty(),
            Some(c) => seq![c],
        }
    } else if s[0] == 10 {
        let c = match cur {
            None => Seq::<u8>::empty(),
            Some(c) => c,
        };
        seq![strip_cr(c)] + lines_acc(s.skip(1), None)
    } else {
        let c = match cur {
            None => Seq::<u8>::empty(),
            Some(c) => c,
        };
        lines_acc(s.skip(1), Some(c.push(s[0])))
    }
}

/// The lines of the text.
pub open spec fn split_lines(s: Seq<u8>) -> Seq<Seq<u8>> {
    lines_acc(s, None)
}

/// What one line does to a dictionary.
pub open spec fn apply_line_model(d: DictModel, line: Seq<u8>) -> DictModel {
    match line_action(line) {
        LineAction::DefAttr(a) => DictModel {
            attributes: d.attributes.insert(a.code, a),
            vendors: d.vendors,
        },
        LineAction::DefVendor(nm, id) => DictModel {
            attributes: d.attributes,
            vendors: d.vendors.insert(nm, id),
        },
        _ => d,
    }
}

/// What a sequence of lines does to a dictionary, first line first.
pub open spec fn apply_lines(d: DictModel, lines: Seq<Seq<u8>>) -> DictModel
    decreases lines.len(),
{
    if lines.len() == 0 {
        d
    } else {
        apply_lines(apply_line_model(d, lines[0]), lines.skip(1))
    }
}

/// The include path one line names, if any.
pub open spec fn line_includes(line: Seq<u8>) -> Seq<Seq<u8>> {
    match line_action(line) {
        LineAction::Include(p) => seq![p],
        _ => Seq::empty(),
    }
}

/// The include paths a sequence of lines names, in order.
pub open spec fn lines_includes(lines: Seq<Seq<u8>>) -> Seq<Seq<u8>>
    decreases lines.len(),
{
    if lines.len() == 0 {
        Seq::empty()
    } else {
        line_includes(lines[0]) + lines_includes(lines.skip(1))
    }
}

/// The partial line the exec loop holds, as the spec sees it: empty means
/// no line has started.
pub open spec fn cur_opt(c: Seq<u8>) -> Option<Seq<u8>> {
    if c.len() == 0 {
        Option::None
    } else {
        Option::Some(c)
    }
}

impl Dictionary {
    /// Reads a whole file's text, line by line: every well-formed
    /// definition is inserted in order (so the last write wins), and the
    /// paths of the `$INCLUDE` lines come back in order, for the caller to
    /// fetch and feed to this function in turn.
    pub fn parse_content(&mut self, content: &[u8]) -> (includes: Vec<Vec<u8>>)
        ensures
            final(self)@ == apply_lines(old(self)@, split_lines(content@)),
            token_views(includes@) == lines_includes(split_lines(content@)),
    {
        let ghost d0 = self@;
        let ghost all = split_lines(content@);
        let n: usize = content.len();
        let mut includes: Vec<Vec<u8>> = Vec::new();
        let mut cur: Vec<u8> = Vec::new();
        let mut i: usize = 0;
        proof {
            assert(content@.skip(0) =~= content@);
            assert(cur@ =~= Seq::<u8>::empty());
            assert(token_views(includes@) + lines_includes(all) =~= lines_includes(all));
        }
        while i < n
            invariant
                i <= n,
                n == content@.len(),
                all == split_lines(content@),
                apply_lines(d0, all) == apply_lines(
                    self@,
                    lines_acc(content@.skip(i as int), cur_opt(cur@)),
                ),
                lines_includes(all) == token_views(includes@) + lines_includes(
                    lines_acc(content@.skip(i as int), cur_opt(cur@)),
                ),
            decreases n - i,
        {
            let ghost rest = content@.skip(i as int);
            proof {
                assert(rest.skip(1) =~= content@.skip(i + 1));
                assert(rest[0] == content@[i as int]);
            }
            if content[i] == 10 {
                let ghost c = match cur_opt(cur@) {
                    Option::None => Seq::<u8>::empty(),
                    Option::Some(c) => c,
                };
                proof {
                    assert(c =~= cur@);
                    assert(lines_acc(rest, cur_opt(cur@)) == seq![strip_cr(c)] + lines_acc(
                        rest.skip(1),
                        Option::None,
                    ));
                }
                if cur.len() > 0 && cur[cur.len() - 1] == 13 {
                    cur.pop();
                }
                assert(cur@ == strip_cr(c));
                let ghost d_before = self@;
                let ghost pi = token_views(includes@);
                let inc = self.apply_line(cur.as_slice());
                proof {
                    assert(self@ == apply_line_model(d_before, cur@));
                    let remaining = seq![strip_cr(c)] + lines_acc(rest.skip(1), Option::None);
                    assert(remaining[0] == strip_cr(c));
                    assert(remaining.skip(1) =~= lines_acc(rest.skip(1), Option::None));
                }
                match inc {
                    Some(p) => {
                        let ghost pv = p@;
                        includes.push(p);
                        proof {
                            assert(token_views(includes@) =~= pi.push(pv));
                            assert(line_includes(cur@) == seq![pv]);
                            assert(pi.push(pv) + lines_includes(
                                lines_acc(rest.skip(1), Option::None),
                            ) =~= pi + (seq![pv] + lines_includes(
                                lines_acc(rest.skip(1), Option::None),
                            )));
                        }
                    },
                    None => {
                        proof {
                            assert(line_includes(cur@) =~= Seq::<Seq<u8>>::empty());
                            assert(pi + (line_includes(cur@) + lines_includes(
                                lines_acc(rest.skip(1), Option::None),
                            )) =~= pi + lines_includes(lines_acc(rest.skip(1), Option::None)));
                        }
                    },
                }
                cur = Vec::new();
                proof {
                    assert(cur@ =~= Seq::<u8>::empty());
                }
            } else {
                let ghost c = match cur_opt(cur@) {
                    Option::None => Seq::<u8>::empty(),
                    Option::Some(c) => c,
                };
                proof {
                    assert(c =~= cur@);
                    assert(lines_acc(rest, cur_opt(cur@)) == lines_acc(
                        rest.skip(1),
                        Option::Some(c.push(rest[0])),
                    ));
                }
                cur.push(content[i]);
                proof {
                    assert(cur@.len() > 0);
                    assert(cur_opt(cur@) == Option::Some(c.push(rest[0])));
                }
            }
            i = i + 1;
        }
        assert(content@.skip(n as int).len() == 0);
        if cur.len() > 0 {
            let ghost c = cur@;
            proof {
                assert(lines_acc(content@.skip(n as int), cur_opt(cur@)) == seq![c]);
            }
            let ghost d_before = self@;
            let ghost pi = token_views(includes@);
            let inc = self.apply_line(cur.as_slice());
            proof {
                assert(self@ == apply_line_model(d_before, c));
                assert(seq![c][0] == c);
                assert(seq![c].skip(1) =~= Seq::<Seq<u8>>::empty());
                assert(apply_lines(apply_line_model(d_before, c), Seq::empty())
                    == apply_line_model(d_before, c));
            }
            match inc {
                Some(p) => {
                    let ghost pv = p@;
                    includes.push(p);
                    proof {
                        assert(token_views(includes@) =~= pi.push(pv));
                        assert(line_includes(c) == seq![pv]);
                        assert(lines_includes(Seq::<Seq<u8>>::empty()) =~= Seq::<Seq<u8>>::empty());
                        assert(lines_includes(seq![c]) == line_includes(c) + lines_includes(
                            seq![c].skip(1),
                        ));
                        assert(lines_includes(seq![c]) =~= seq![pv]);
                        assert(pi.push(pv) =~= pi + seq![pv]);
                    }
                },
                None => {
                    proof {
                        assert(line_includes(c) =~= Seq::<Seq<u8>>::empty());
                        assert(lines_includes(Seq::<Seq<u8>>::empty()) =~= Seq::<Seq<u8>>::empty());
                        assert(lines_includes(seq![c]) == line_includes(c) + lines_includes(
                            seq![c].skip(1),
                        ));
                        assert(lines_includes(seq![c]) =~= Seq::<Seq<u8>>::empty());
                        assert(pi + lines_includes(seq![c]) =~= pi);
                    }
                },
            }
        } else {
            proof {
                assert(lines_acc(content@.skip(n as int), cur_opt(cur@)) =~= Seq::<Seq<u8>>::empty());
                assert(token_views(includes@) + Seq::<Seq<u8>>::empty() =~= token_views(includes@));
            }
        }
        includes
    }
}

/// Whether a visit to the path is granted: only a path never seen before.
pub open spec fn visit_grants(visited: Set<Seq<u8>>, path: Seq<u8>) -> bool {
    !visited.contains(path)
}

/// The visited set after an attempted visit: the path is recorded either
/// way.
pub open spec fn visit_mark(visited: Set<Seq<u8>>, path: Seq<u8>) -> Set<Seq<u8>> {
    visited.insert(path)
}

/// Include-cycle safety: once a path has been marked visited, any later
/// attempt at the same path — whatever else was marked in between — is
/// refused, so even a cyclic include graph parses each file at most once.
pub proof fn lemma_include_cycle_safe(visited: Set<Seq<u8>>, later: Set<Seq<u8>>, path: Seq<u8>)
    requires
        visit_mark(visited, path).subset_of(later),
    ensures
        !visit_grants(later, path),
{
    assert(visit_mark(visited, path).contains(path));
}

/// A dictionary under construction, together with the set of files already
/// parsed, so that an include cycle can never parse a file twice.
pub struct Loader {
    pub dict: Dictionary,
    pub visited: Vec<Vec<u8>>,
}

impl Loader {
    /// The paths already visited.
    pub open spec fn visited_set(&self) -> Set<Seq<u8>> {
        Set::new(
            |p: Seq<u8>|
                exists|i: int| 0 <= i < self.visited@.len() && #[trigger] self.visited@[i]@ == p,
        )
    }

    /// A fresh loader: an empty dictionary and nothing visited.
    pub fn new() -> (r: Loader)
        ensures
            r.dict@.attributes == Map::<u32, AttrDefModel>::empty(),
            r.dict@.vendors == Map::<Seq<u8>, u32>::empty(),
            r.visited_set() == Set::<Seq<u8>>::empty(),
    {
        let r = Loader { dict: Dictionary::new(), visited: Vec::new() };
        proof {
            assert(r.visited_set() =~= Set::<Seq<u8>>::empty());
        }
        r
    }

    /// Asks to visit a file: granted — and recorded — only the first time,
    /// so the caller parses each file at most once however the include
    /// graph loops back on itself. The dictionary is untouched.
    pub fn try_visit(&mut self, path: &[u8]) -> (b: bool)
        ensures
            final(self).dict == old(self).dict,
            b == visit_grants(old(self).visited_set(), path@),
            final(self).visited_set() == visit_mark(old(self).visited_set(), path@),
    {
        let n: usize = self.visited.len();
        let mut k: usize = 0;
        while k < n
            invariant
                k <= n,
                n == self.visited@.len(),
                forall|t: int| 0 <= t < k ==> #[trigger] self.visited@[t]@ != path@,
            decreases n - k,
        {
            if bytes_eq(self.visited[k].as_slice(), path) {
                proof {
                    assert(self.visited@[k as int]@ == path@);
                    assert(self.visited_set().contains(path@));
                    assert(visit_mark(self.visited_set(), path@) =~= self.visited_set());
                }
                return false;
            }
            k = k + 1;
        }
        proof {
            assert(!self.visited_set().contains(path@));
        }
        let ghost prev = *self;
        let copy: Vec<u8> = vstd::slice::slice_to_vec(path);
        self.visited.push(copy);
        proof {
            assert(self.visited@.len() == prev.visited@.len() + 1);
            assert(self.visited@[prev.visited@.len() as int]@ == path@);
            assert forall|p: Seq<u8>| #[trigger] self.visited_set().contains(p) implies visit_mark(
                prev.visited_set(),
                path@,
            ).contains(p) by {
                let w = choose|i: int|
                    0 <= i < self.visited@.len() && #[trigger] self.visited@[i]@ == p;
                if w < prev.visited@.len() {
                    assert(prev.visited@[w]@ == p);
                }
            }
            assert forall|p: Seq<u8>|
                #[trigger] visit_mark(prev.visited_set(), path@).contains(p)
                    implies self.visited_set().contains(p) by {
                if p == path@ {
                    assert(self.visited@[prev.visited@.len() as int]@ == p);
                } else {
                    let w = choose|i: int|
                        0 <= i < prev.visited@.len() && #[trigger] prev.visited@[i]@ == p;
                    assert(self.visited@[w]@ == p);
                }
            }
            assert(self.visited_set() =~= visit_mark(prev.visited_set(), path@));
        }
        true
    }
}

} // verus!
