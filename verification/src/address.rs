use vstd::prelude::*;

use crate::outside::ipv6_text;

verus! {

/// An IP network in CIDR notation: an address and the length of its prefix.
/// An IPv4 address is held in the low 32 bits of `addr`.
#[derive(Clone, Copy, Debug, PartialEq, Eq, Structural)]
pub struct IpNet {
    pub is_v6: bool,
    pub addr: u128,
    pub prefix: u8,
}

/// A single IP address; an IPv4 address is held in the low 32 bits of `value`.
#[derive(Clone, Copy, Debug, PartialEq, Eq, Structural)]
pub struct IpAddress {
    pub is_v6: bool,
    pub value: u128,
}

impl IpAddress {
    pub open spec fn wf(self) -> bool {
        !self.is_v6 ==> self.value <= u32::MAX
    }
}

/// The mask of the `bits` low bits of a 128-bit word.
pub open spec fn low_mask(bits: u32) -> u128 {
    if bits >= 128 {
        u128::MAX
    } else {
        ((1u128 << bits) - 1) as u128
    }
}

impl IpNet {
    pub open spec fn width(self) -> u32 {
        if self.is_v6 { 128 } else { 32 }
    }

    pub open spec fn wf(self) -> bool {
        &&& self.prefix <= self.width()
        &&& !self.is_v6 ==> self.addr <= u32::MAX
    }

    /// Number of bits that tell the hosts of the network apart.
    pub open spec fn host_bits(self) -> u32 {
        (self.width() - self.prefix) as u32
    }

    /// The largest host number: the network holds `host_mask() + 1` addresses.
    pub open spec fn host_mask(self) -> u128 {
        low_mask(self.host_bits())
    }

    /// The lowest address of the network: `addr` with its host bits cleared.
    pub open spec fn network(self) -> u128 {
        self.addr & !self.host_mask()
    }

    /// The highest address of the network: `addr` with its host bits set.
    pub open spec fn broadcast(self) -> u128 {
        self.addr | self.host_mask()
    }

    /// `v` is an address of the network's family that lies in the network.
    pub open spec fn contains(self, v: u128) -> bool {
        &&& !self.is_v6 ==> v <= u32::MAX
        &&& v & !self.host_mask() == self.network()
    }

    /// The address of host number `h` of the network.
    pub open spec fn host(self, h: u128) -> u128 {
        self.network() | h
    }
}

/// Decimal digits of a natural number, without leading zeros.
pub open spec fn decimal(n: nat) -> Seq<char>
    decreases n,
{
    if n < 10 {
        seq![digit_char(n)]
    } else {
        decimal(n / 10).push(digit_char(n % 10))
    }
}

pub open spec fn digit_char(d: nat) -> char {
    ((d + 48) as u8) as char
}

/// Dotted-decimal text of an IPv4 address, most significant octet first.
pub open spec fn ipv4_text(v: u32) -> Seq<char> {
    decimal((v / 0x100_0000) as nat) + seq!['.'] + decimal(((v / 0x1_0000) % 256) as nat)
        + seq!['.'] + decimal(((v / 0x100) % 256) as nat) + seq!['.'] + decimal((v % 256) as nat)
}

/// Text of an address of the given family.
pub open spec fn address_text(is_v6: bool, v: u128) -> Seq<char> {
    if is_v6 {
        ipv6_text(v)
    } else {
        ipv4_text(v as u32)
    }
}

/// A decimal digit is no dot, and different digits are different characters.
proof fn lemma_digit_char(d1: nat, d2: nat)
    requires
        d1 < 10,
        d2 < 10,
    ensures
        digit_char(d1) != '.',
        digit_char(d1) == digit_char(d2) ==> d1 == d2,
{
    assert(digit_char(d1) as int == d1 + 48);
    assert(digit_char(d2) as int == d2 + 48);
    assert('.' as int == 46);
}

/// A decimal text is not empty and holds no dot.
pub proof fn lemma_decimal_has_no_dot(n: nat)
    ensures
        decimal(n).len() >= 1,
        forall|i: int| 0 <= i < decimal(n).len() ==> #[trigger] decimal(n)[i] != '.',
    decreases n,
{
    lemma_digit_char(n % 10, n % 10);
    if n >= 10 {
        lemma_decimal_has_no_dot(n / 10);
        assert forall|i: int| 0 <= i < decimal(n).len() implies #[trigger] decimal(n)[i] != '.' by {
            if i < decimal(n / 10).len() {
                assert(decimal(n)[i] == decimal(n / 10)[i]);
            }
        }
    }
}

/// A decimal text begins with a digit.
pub proof fn lemma_decimal_first_digit(n: nat)
    ensures
        decimal(n).len() >= 1,
        48 <= decimal(n)[0] as int <= 57,
    decreases n,
{
    if n < 10 {
        assert(digit_char(n) as int == n + 48);
    } else {
        lemma_decimal_first_digit(n / 10);
        assert(decimal(n)[0] == decimal(n / 10)[0]);
    }
}

/// The text of an IPv4 address begins with a digit.
pub proof fn lemma_ipv4_text_first_digit(v: u32)
    ensures
        ipv4_text(v).len() >= 1,
        48 <= ipv4_text(v)[0] as int <= 57,
{
    let a1 = (v / 0x100_0000) as nat;
    lemma_decimal_first_digit(a1);
    assert(ipv4_text(v)[0] == decimal(a1)[0]);
}

/// The number a text of decimal digits stands for, most significant first.
pub open spec fn digits_value(s: Seq<char>) -> int
    decreases s.len(),
{
    if s.len() == 0 {
        0
    } else {
        digits_value(s.drop_last()) * 10 + (s.last() as int - 48)
    }
}

/// The decimal text of a number is made of digits, with no leading zero,
/// and reads back as the number.
pub proof fn lemma_decimal_reads_back(n: nat)
    ensures
        forall|i: int| 0 <= i < decimal(n).len() ==> 48 <= #[trigger] decimal(n)[i] as int <= 57,
        decimal(n).len() > 1 ==> decimal(n)[0] != '0',
        digits_value(decimal(n)) == n,
    decreases n,
{
    assert(digit_char(n % 10) as int == n % 10 + 48);
    lemma_decimal_first_digit(n);
    if n >= 10 {
        lemma_decimal_reads_back(n / 10);
        let d = decimal(n);
        assert(d.drop_last() == decimal(n / 10));
        assert forall|i: int| 0 <= i < d.len() implies 48 <= #[trigger] d[i] as int <= 57 by {
            if i < d.len() - 1 {
                assert(d[i] == decimal(n / 10)[i]);
            }
        }
        assert(d[0] == decimal(n / 10)[0]);
        assert('0' as int == 48);
        if n / 10 < 10 {
            assert(decimal(n / 10) == seq![digit_char(n / 10)]);
            assert(digit_char(n / 10) as int == n / 10 + 48);
        } else {
            lemma_decimal_first_digit(n / 10 / 10);
            assert(decimal(n / 10).len() > 1);
        }
        assert(d.last() == digit_char(n % 10));
        assert(digits_value(d) == digits_value(decimal(n / 10)) * 10 + (n % 10));
        assert(n == (n / 10) * 10 + n % 10);
    } else {
        assert(digit_char(n) as int == n + 48);
        assert(decimal(n).drop_last() =~= Seq::<char>::empty());
        assert(digits_value(decimal(n)) == digits_value(Seq::<char>::empty()) * 10 + (n as int));
    }
}

/// The text of an IPv4 address is its four bytes, most significant first,
/// each in decimal, separated by dots.
pub proof fn lemma_ipv4_text_bytes(v: u32)
    ensures
        exists|a: nat, b: nat, c: nat, d: nat|
            #![trigger decimal(a), decimal(b), decimal(c), decimal(d)]
            a < 256 && b < 256 && c < 256 && d < 256 && v == a * 0x100_0000 + b * 0x1_0000 + c
                * 0x100 + d && ipv4_text(v) == decimal(a) + seq!['.'] + decimal(b) + seq!['.']
                + decimal(c) + seq!['.'] + decimal(d),
{
    let a = (v / 0x100_0000) as nat;
    let b = ((v / 0x1_0000) % 256) as nat;
    let c = ((v / 0x100) % 256) as nat;
    let d = (v % 256) as nat;
    assert(v / 0x100_0000 < 256 && v == (v / 0x100_0000) * 0x100_0000 + ((v / 0x1_0000) % 256)
        * 0x1_0000 + ((v / 0x100) % 256) * 0x100 + v % 256) by (bit_vector);
    assert(a < 256 && b < 256 && c < 256 && d < 256 && v == a * 0x100_0000 + b * 0x1_0000 + c
        * 0x100 + d && ipv4_text(v) == decimal(a) + seq!['.'] + decimal(b) + seq!['.'] + decimal(c)
        + seq!['.'] + decimal(d));
}

/// Different numbers have different decimal texts.
pub proof fn lemma_decimal_injective(a: nat, b: nat)
    requires
        decimal(a) == decimal(b),
    ensures
        a == b,
    decreases a,
{
    if a < 10 && b < 10 {
        assert(decimal(a)[0] == digit_char(a));
        assert(decimal(b)[0] == digit_char(b));
        lemma_digit_char(a, b);
        assert(a == b);
    } else if a < 10 {
        lemma_decimal_has_no_dot(b / 10);
        assert(decimal(a).len() == 1);
        assert(false);
    } else if b < 10 {
        lemma_decimal_has_no_dot(a / 10);
        assert(decimal(b).len() == 1);
        assert(false);
    } else {
        let da = decimal(a);
        assert(da.last() == digit_char(a % 10));
        assert(decimal(b).last() == digit_char(b % 10));
        lemma_digit_char(a % 10, b % 10);
        assert(decimal(a / 10) == da.drop_last());
        assert(decimal(b / 10) == decimal(b).drop_last());
        lemma_decimal_injective(a / 10, b / 10);
        assert(a == 10 * (a / 10) + a % 10);
        assert(b == 10 * (b / 10) + b % 10);
    }
}

/// Two texts made of a dot-free head, a dot and a rest are equal only where
/// heads and rests are.
proof fn lemma_split_at_dot(x1: Seq<char>, r1: Seq<char>, x2: Seq<char>, r2: Seq<char>)
    requires
        forall|i: int| 0 <= i < x1.len() ==> #[trigger] x1[i] != '.',
        forall|i: int| 0 <= i < x2.len() ==> #[trigger] x2[i] != '.',
        x1 + seq!['.'] + r1 == x2 + seq!['.'] + r2,
    ensures
        x1 == x2,
        r1 == r2,
{
    let s = x1 + seq!['.'] + r1;
    let t = x2 + seq!['.'] + r2;
    if x1.len() < x2.len() {
        assert(s[x1.len() as int] == '.');
        assert(t[x1.len() as int] == x2[x1.len() as int]);
    } else if x2.len() < x1.len() {
        assert(t[x2.len() as int] == '.');
        assert(s[x2.len() as int] == x1[x2.len() as int]);
    } else {
        assert(x1 =~= s.subrange(0, x1.len() as int));
        assert(x2 =~= t.subrange(0, x2.len() as int));
        assert(r1 =~= s.subrange(x1.len() as int + 1, s.len() as int));
        assert(r2 =~= t.subrange(x2.len() as int + 1, t.len() as int));
    }
}

/// Different IPv4 addresses have different dotted-decimal texts.
pub proof fn lemma_ipv4_text_injective(v: u32, w: u32)
    requires
        ipv4_text(v) == ipv4_text(w),
    ensures
        v == w,
{
    let a1 = (v / 0x100_0000) as nat;
    let a2 = ((v / 0x1_0000) % 256) as nat;
    let a3 = ((v / 0x100) % 256) as nat;
    let a4 = (v % 256) as nat;
    let b1 = (w / 0x100_0000) as nat;
    let b2 = ((w / 0x1_0000) % 256) as nat;
    let b3 = ((w / 0x100) % 256) as nat;
    let b4 = (w % 256) as nat;
    let dot = seq!['.'];
    lemma_decimal_has_no_dot(a1);
    lemma_decimal_has_no_dot(a2);
    lemma_decimal_has_no_dot(a3);
    lemma_decimal_has_no_dot(b1);
    lemma_decimal_has_no_dot(b2);
    lemma_decimal_has_no_dot(b3);
    let ra3 = decimal(a4);
    let rb3 = decimal(b4);
    let ra2 = decimal(a3) + dot + ra3;
    let rb2 = decimal(b3) + dot + rb3;
    let ra1 = decimal(a2) + dot + ra2;
    let rb1 = decimal(b2) + dot + rb2;
    assert(ipv4_text(v) =~= decimal(a1) + dot + ra1);
    assert(ipv4_text(w) =~= decimal(b1) + dot + rb1);
    lemma_split_at_dot(decimal(a1), ra1, decimal(b1), rb1);
    lemma_split_at_dot(decimal(a2), ra2, decimal(b2), rb2);
    lemma_split_at_dot(decimal(a3), ra3, decimal(b3), rb3);
    lemma_decimal_injective(a1, b1);
    lemma_decimal_injective(a2, b2);
    lemma_decimal_injective(a3, b3);
    lemma_decimal_injective(a4, b4);
    assert(v / 0x100_0000 == w / 0x100_0000 && (v / 0x1_0000) % 256 == (w / 0x1_0000) % 256 && (v
        / 0x100) % 256 == (w / 0x100) % 256 && v % 256 == w % 256 ==> v == w) by (bit_vector);
}

/// A network whose prefix covers the whole address holds that address alone.
pub proof fn lemma_full_prefix(net: IpNet)
    requires
        net.wf(),
        net.prefix == net.width(),
    ensures
        net.host_mask() == 0,
        net.host(0) == net.addr,
        forall|v: u128| net.contains(v) ==> v == net.addr,
{
    assert(net.host_bits() == 0);
    assert(((1u128 << 0u32) - 1) as u128 == 0) by (bit_vector);
    let a = net.addr;
    assert(a & !0u128 == a && (a | 0u128) == a) by (bit_vector);
    assert forall|v: u128| net.contains(v) implies v == net.addr by {
        assert(v & !0u128 == v) by (bit_vector);
    }
}

/// Appends the decimal digits of `n` to `s`.
pub fn push_decimal(s: &mut String, n: u128)
    ensures
        final(s)@ == old(s)@ + decimal(n as nat),
    decreases n,
{
    if n >= 10 {
        push_decimal(s, n / 10);
    }
    let d: u8 = (n % 10) as u8;
    crate::outside::push_char(s, (48u8 + d) as char);
}

/// Decimal text of a natural number.
pub fn decimal_string(n: u128) -> (s: String)
    ensures
        s@ == decimal(n as nat),
{
    let mut s = String::new();
    push_decimal(&mut s, n);
    s
}

/// Dotted-decimal text of an IPv4 address.
pub fn ipv4_to_string(v: u32) -> (s: String)
    ensures
        s@ == ipv4_text(v),
{
    let mut s = String::new();
    push_decimal(&mut s, (v / 0x100_0000) as u128);
    crate::outside::push_char(&mut s, '.');
    push_decimal(&mut s, ((v / 0x1_0000) % 256) as u128);
    crate::outside::push_char(&mut s, '.');
    push_decimal(&mut s, ((v / 0x100) % 256) as u128);
    crate::outside::push_char(&mut s, '.');
    push_decimal(&mut s, (v % 256) as u128);
    s
}

/// Setting host bits below a low mask keeps the bits above it.
proof fn lemma_or_below_mask(a: u128, h: u128, bits: u32)
    requires
        bits < 128,
        h <= low_mask(bits),
    ensures
        h & !low_mask(bits) == 0,
        ((a & !low_mask(bits)) | h) & !low_mask(bits) == a & !low_mask(bits),
{
    let b = bits as u128;
    assert(low_mask(bits) == ((1u128 << b) - 1) as u128);
    assert(b < 128 ==> 1u128 << b >= 1) by (bit_vector);
    assert(b < 128 && h <= ((1u128 << b) - 1) as u128 ==> h & !(((1u128 << b) - 1) as u128) == 0)
        by (bit_vector);
    assert(b < 128 && h & !(((1u128 << b) - 1) as u128) == 0 ==> ((a & !(((1u128 << b)
        - 1) as u128)) | h) & !(((1u128 << b) - 1) as u128) == a & !(((1u128 << b) - 1) as u128))
        by (bit_vector);
}

/// A low mask of at most 32 bits fits in 32 bits; one of at most 9 bits is at most 511.
pub proof fn lemma_low_mask_bounds(bits: u32)
    ensures
        bits <= 32 ==> low_mask(bits) <= u32::MAX,
        bits <= 31 ==> low_mask(bits) <= 0x7fff_ffff,
        bits <= 9 ==> low_mask(bits) <= 511,
{
    let b = bits as u128;
    if bits < 128 {
        assert(low_mask(bits) == ((1u128 << b) - 1) as u128);
        assert(b <= 32 ==> ((1u128 << b) - 1) as u128 <= 0xffff_ffff) by (bit_vector);
        assert(b <= 31 ==> ((1u128 << b) - 1) as u128 <= 0x7fff_ffff) by (bit_vector);
        assert(b <= 9 ==> ((1u128 << b) - 1) as u128 <= 511) by (bit_vector);
    }
}

/// Every host number up to the host mask names an address of the network.
pub proof fn lemma_host_in_network(net: IpNet, h: u128)
    requires
        net.wf(),
        h <= net.host_mask(),
    ensures
        net.contains(net.host(h)),
        h & !net.host_mask() == 0,
{
    let m = net.host_mask();
    let a = net.addr;
    if net.host_bits() < 128 {
        lemma_or_below_mask(a, h, net.host_bits());
    } else {
        assert(m == u128::MAX);
        assert(!u128::MAX == 0u128) by (bit_vector);
        assert(((a & 0) | h) & 0 == a & 0) by (bit_vector);
        assert(h & 0 == 0) by (bit_vector);
    }
    if !net.is_v6 {
        lemma_low_mask_bounds(net.host_bits());
        assert(a <= 0xffff_ffff && h <= 0xffff_ffff ==> (a & !m) | h <= 0xffff_ffff) by (bit_vector);
    }
}

/// Distinct host numbers name distinct addresses.
pub proof fn lemma_hosts_distinct(net: IpNet, h1: u128, h2: u128)
    requires
        net.wf(),
        h1 <= net.host_mask(),
        h2 <= net.host_mask(),
        h1 != h2,
    ensures
        net.host(h1) != net.host(h2),
{
    let m = net.host_mask();
    let a = net.addr;
    lemma_host_in_network(net, h1);
    lemma_host_in_network(net, h2);
    assert(h1 & !m == 0 && h2 & !m == 0 && h1 != h2 ==> (a & !m) | h1 != (a & !m) | h2)
        by (bit_vector);
}

/// The host mask of a well-formed network.
pub fn host_mask_of(net: &IpNet) -> (m: u128)
    requires
        net.wf(),
    ensures
        m == net.host_mask(),
{
    let bits: u32 = if net.is_v6 {
        128 - net.prefix as u32
    } else {
        32 - net.prefix as u32
    };
    if bits >= 128 {
        u128::MAX
    } else {
        let b = bits as u128;
        assert(b < 128 ==> 1u128 << b >= 1) by (bit_vector);
        assert(1u128 << bits == 1u128 << b);
        (1u128 << bits) - 1
    }
}

/// The lowest address of a well-formed network.
pub fn network_of(net: &IpNet) -> (v: u128)
    requires
        net.wf(),
    ensures
        v == net.network(),
{
    net.addr & !host_mask_of(net)
}

/// An address of the network's family lies in the network exactly when it
/// lies between the network's lowest and highest address.
pub proof fn lemma_contains_iff_between(net: IpNet, v: u128)
    requires
        net.wf(),
        !net.is_v6 ==> v <= u32::MAX,
    ensures
        net.contains(v) <==> net.network() <= v <= net.broadcast(),
{
    let a = net.addr;
    let bits = net.host_bits();
    if bits < 128 {
        let b = bits as u128;
        assert(net.host_mask() == ((1u128 << b) - 1) as u128);
        assert(b < 128 ==> 1u128 << b >= 1) by (bit_vector);
        assert(b < 128 ==> (v & !(((1u128 << b) - 1) as u128) == a & !(((1u128 << b) - 1) as u128)
            <==> (a & !(((1u128 << b) - 1) as u128) <= v && v <= (a | (((1u128 << b) - 1) as u128)))))
            by (bit_vector);
    } else {
        assert(net.host_mask() == u128::MAX);
        assert(v & !u128::MAX == a & !u128::MAX && a & !u128::MAX <= v && v <= (a | u128::MAX))
            by (bit_vector);
    }
}

} // verus!
