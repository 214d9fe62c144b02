//! The details of one interface, read from the outputs of
//! `ip -d link show`, `ip addr show` and `ip -s link show`.
use vstd::prelude::*;
use crate::text::{
    char_vec, line_ranges, lines, pieces, range_eq, range_starts_with, range_string, ranges_within,
    starts_with, string_views, trim, trim_range, word_ranges, words,
};

verus! {

/// What the detail window shows of one interface.
#[derive(Clone, Debug)]
pub struct IfaceDetail {
    pub raw_link: String,
    pub raw_addr: String,
    pub raw_stats: String,
    pub mtu: String,
    pub mac: String,
    pub iface_type: String,
    pub rx_bytes: String,
    pub tx_bytes: String,
    pub addrs: Vec<String>,
}

/// The mathematical value of an [`IfaceDetail`].
pub struct DetailView {
    pub raw_link: Seq<char>,
    pub raw_addr: Seq<char>,
    pub raw_stats: Seq<char>,
    pub mtu: Seq<char>,
    pub mac: Seq<char>,
    pub iface_type: Seq<char>,
    pub rx_bytes: Seq<char>,
    pub tx_bytes: Seq<char>,
    pub addrs: Seq<Seq<char>>,
}

impl View for IfaceDetail {
    type V = DetailView;

    open spec fn view(&self) -> DetailView {
        DetailView {
            raw_link: self.raw_link@,
            raw_addr: self.raw_addr@,
            raw_stats: self.raw_stats@,
            mtu: self.mtu@,
            mac: self.mac@,
            iface_type: self.iface_type@,
            rx_bytes: self.rx_bytes@,
            tx_bytes: self.tx_bytes@,
            addrs: string_views(self.addrs@),
        }
    }
}

/// The words of a line once it is trimmed.
pub open spec fn line_words(l: Seq<char>) -> Seq<Seq<char>> {
    words(trim(l))
}

/// Among the first `n` words, the word that follows the last `mtu`
/// (empty where that `mtu` ends the line), if there is an `mtu`.
pub open spec fn mtu_in(w: Seq<Seq<char>>, n: int) -> Option<Seq<char>>
    decreases n,
{
    if n <= 0 {
        None
    } else if w[n - 1] == "mtu"@ {
        Some(
            if n < w.len() {
                w[n]
            } else {
                seq![]
            },
        )
    } else {
        mtu_in(w, n - 1)
    }
}

/// The MTU: the value of the last `mtu` over all lines, or empty.
pub open spec fn link_mtu(ls: Seq<Seq<char>>) -> Seq<char>
    decreases ls.len(),
{
    if ls.len() == 0 {
        seq![]
    } else {
        match mtu_in(line_words(ls.last()), line_words(ls.last()).len() as int) {
            Some(m) => m,
            None => link_mtu(ls.drop_last()),
        }
    }
}

/// Removes `p` from the front of `s` as often as it stands there.
pub open spec fn strip_prefix_all(s: Seq<char>, p: Seq<char>) -> Seq<char>
    decreases s.len(),
{
    if p.len() > 0 && starts_with(s, p) {
        strip_prefix_all(s.skip(p.len() as int), p)
    } else {
        s
    }
}

/// A `link/<type> <address>` line gives the link type and the hardware address.
pub open spec fn link_line(l: Seq<char>) -> Option<(Seq<char>, Seq<char>)> {
    let t = trim(l);
    let w = words(t);
    if starts_with(t, "link/"@) && w.len() >= 2 {
        Some((strip_prefix_all(w[0], "link/"@), w[1]))
    } else {
        None
    }
}

/// The type and address of the last `link/` line.
pub open spec fn link_kind(ls: Seq<Seq<char>>) -> Option<(Seq<char>, Seq<char>)>
    decreases ls.len(),
{
    if ls.len() == 0 {
        None
    } else {
        match link_line(ls.last()) {
            Some(k) => Some(k),
            None => link_kind(ls.drop_last()),
        }
    }
}

/// An `inet` or `inet6` line gives `"<family> <address/prefix>"`.
pub open spec fn addr_entry(l: Seq<char>) -> Option<Seq<char>> {
    let t = trim(l);
    let w = words(t);
    if (starts_with(t, "inet "@) || starts_with(t, "inet6 "@)) && w.len() >= 2 {
        Some(w[0] + " "@ + w[1])
    } else {
        None
    }
}

/// The addresses, one per `inet`/`inet6` line, in order.
pub open spec fn addr_entries(ls: Seq<Seq<char>>) -> Seq<Seq<char>>
    decreases ls.len(),
{
    if ls.len() == 0 {
        seq![]
    } else {
        addr_entries(ls.drop_last()) + match addr_entry(ls.last()) {
            Some(e) => seq![e],
            None => seq![],
        }
    }
}

/// The first word of a line, or `0` when it has none.
pub open spec fn first_word_or_zero(l: Seq<char>) -> Seq<char> {
    if words(l).len() > 0 {
        words(l)[0]
    } else {
        "0"@
    }
}

/// Among the first `n` lines, the last one that trims to `label` and has a
/// next line gives the first word of that next line.
pub open spec fn stat_after(ls: Seq<Seq<char>>, label: Seq<char>, n: int) -> Option<Seq<char>>
    decreases n,
{
    if n <= 0 {
        None
    } else if trim(ls[n - 1]) == label && n < ls.len() {
        Some(first_word_or_zero(ls[n]))
    } else {
        stat_after(ls, label, n - 1)
    }
}

pub open spec fn or_empty(o: Option<Seq<char>>) -> Seq<char> {
    match o {
        Some(s) => s,
        None => seq![],
    }
}

/// The details that the three command outputs give.
pub open spec fn detail_of(link: Seq<char>, addr: Seq<char>, stats: Seq<char>) -> DetailView {
    let kind = link_kind(lines(link));
    let sl = lines(stats);
    DetailView {
        raw_link: link,
        raw_addr: addr,
        raw_stats: stats,
        mtu: link_mtu(lines(link)),
        iface_type: match kind {
            Some(k) => k.0,
            None => seq![],
        },
        mac: match kind {
            Some(k) => k.1,
            None => seq![],
        },
        rx_bytes: or_empty(stat_after(sl, "RX:"@, sl.len() as int)),
        tx_bytes: or_empty(stat_after(sl, "TX:"@, sl.len() as int)),
        addrs: addr_entries(lines(addr)),
    }
}

proof fn lemma_mtu_in_last(w: Seq<Seq<char>>, i: int, n: int)
    requires
        0 <= i < n <= w.len(),
        w[i] == "mtu"@,
        forall|j: int| i < j < n ==> #[trigger] w[j] != "mtu"@,
    ensures
        mtu_in(w, n) == Some(
            if i + 1 < w.len() {
                w[i + 1]
            } else {
                seq![]
            },
        ),
    decreases n,
{
    if n - 1 != i {
        assert(w[n - 1] != "mtu"@);
        lemma_mtu_in_last(w, i, n - 1);
    }
}

proof fn lemma_mtu_in_none(w: Seq<Seq<char>>, n: int)
    requires
        0 <= n <= w.len(),
        forall|j: int| 0 <= j < n ==> #[trigger] w[j] != "mtu"@,
    ensures
        mtu_in(w, n) is None,
    decreases n,
{
    if n > 0 {
        assert(w[n - 1] != "mtu"@);
        lemma_mtu_in_none(w, n - 1);
    }
}

/// A line whose (trimmed) words hold `mtu` sets the MTU to the whole word
/// after its last `mtu`, or to empty where that `mtu` ends the line, whatever
/// the lines before it said.
pub proof fn law_mtu_is_word_after_last_mtu(ls: Seq<Seq<char>>, l: Seq<char>, i: int)
    requires
        0 <= i < words(trim(l)).len(),
        words(trim(l))[i] == "mtu"@,
        forall|j: int| i < j < words(trim(l)).len() ==> #[trigger] words(trim(l))[j] != "mtu"@,
    ensures
        link_mtu(ls.push(l)) == (if i + 1 < words(trim(l)).len() {
            words(trim(l))[i + 1]
        } else {
            seq![]
        }),
{
    let w = words(trim(l));
    assert(ls.push(l).last() == l);
    assert(ls.push(l).drop_last() =~= ls);
    lemma_mtu_in_last(w, i, w.len() as int);
}

/// A line without an `mtu` word leaves the MTU as the lines before it set it.
pub proof fn law_mtu_kept_by_other_lines(ls: Seq<Seq<char>>, l: Seq<char>)
    requires
        forall|j: int| 0 <= j < words(trim(l)).len() ==> #[trigger] words(trim(l))[j] != "mtu"@,
    ensures
        link_mtu(ls.push(l)) == link_mtu(ls),
{
    let w = words(trim(l));
    assert(ls.push(l).last() == l);
    assert(ls.push(l).drop_last() =~= ls);
    lemma_mtu_in_none(w, w.len() as int);
}

/// Removing every leading copy of `p` leaves a tail of `s` that no longer
/// begins with `p`, shorter by a whole number of copies.
pub proof fn law_strip_prefix_all_is_tail(s: Seq<char>, p: Seq<char>)
    requires
        p.len() > 0,
    ensures
        strip_prefix_all(s, p).len() <= s.len(),
        s.skip(s.len() - strip_prefix_all(s, p).len()) == strip_prefix_all(s, p),
        !starts_with(strip_prefix_all(s, p), p),
        (s.len() - strip_prefix_all(s, p).len()) % (p.len() as int) == 0,
    decreases s.len(),
{
    if starts_with(s, p) {
        let t = s.skip(p.len() as int);
        law_strip_prefix_all_is_tail(t, p);
        let r = strip_prefix_all(t, p);
        assert(s.skip(s.len() - r.len()) =~= t.skip(t.len() - r.len()));
        assert((s.len() - r.len()) == (t.len() - r.len()) + p.len());
        vstd::arithmetic::div_mod::lemma_mod_adds(
            t.len() - r.len(),
            p.len() as int,
            p.len() as int,
        );
        vstd::arithmetic::div_mod::lemma_mod_self_0(p.len() as int);
        let a = t.len() - r.len();
        let d = p.len() as int;
        assert(a % d == 0);
        assert((a + d) % d == 0);
        assert(strip_prefix_all(s, p) == r);
        assert(s.len() - r.len() == a + d);
    } else {
        assert(s.skip(0) =~= s);
        vstd::arithmetic::div_mod::lemma_small_mod(0, p.len());
    }
}

/// A `link/` line of at least two words sets the link type (its first word
/// without the leading `link/` copies) and the address (its second word),
/// whatever the lines before it said.
pub proof fn law_link_line_sets_kind(ls: Seq<Seq<char>>, l: Seq<char>)
    requires
        starts_with(trim(l), "link/"@),
        words(trim(l)).len() >= 2,
    ensures
        link_kind(ls.push(l)) == Some(
            (strip_prefix_all(words(trim(l))[0], "link/"@), words(trim(l))[1]),
        ),
{
    assert(ls.push(l).last() == l);
}

/// Any other line leaves the link type and address as before.
pub proof fn law_link_kind_kept_by_other_lines(ls: Seq<Seq<char>>, l: Seq<char>)
    requires
        !(starts_with(trim(l), "link/"@) && words(trim(l)).len() >= 2),
    ensures
        link_kind(ls.push(l)) == link_kind(ls),
{
    assert(ls.push(l).last() == l);
    assert(ls.push(l).drop_last() =~= ls);
}

/// A line that trims to the label, followed by another line, gives the whole
/// first word of that next line as the count (`0` where it has no word).
pub proof fn law_count_is_first_word_after_label(ls: Seq<Seq<char>>, label: Seq<char>, n: int)
    requires
        0 < n < ls.len(),
        trim(ls[n - 1]) == label,
    ensures
        stat_after(ls, label, n) == Some(
            if words(ls[n]).len() > 0 {
                words(ls[n])[0]
            } else {
                "0"@
            },
        ),
{
}

/// Any other line leaves the count as the lines before it gave it.
pub proof fn law_count_kept_by_other_lines(ls: Seq<Seq<char>>, label: Seq<char>, n: int)
    requires
        0 < n <= ls.len(),
        !(trim(ls[n - 1]) == label && n < ls.len()),
    ensures
        stat_after(ls, label, n) == stat_after(ls, label, n - 1),
{
}

/// Before any line there is no count.
pub proof fn law_no_count_before_any_line(ls: Seq<Seq<char>>, label: Seq<char>)
    ensures
        stat_after(ls, label, 0) is None,
{
}

/// Every `inet`/`inet6` line of at least two words adds one address,
/// `"<first word> <second word>"`, after those already listed; there is no cap.
pub proof fn law_each_inet_line_adds_its_address(ls: Seq<Seq<char>>, l: Seq<char>)
    requires
        starts_with(trim(l), "inet "@) || starts_with(trim(l), "inet6 "@),
        words(trim(l)).len() >= 2,
    ensures
        addr_entries(ls.push(l)) == addr_entries(ls).push(
            words(trim(l))[0] + " "@ + words(trim(l))[1],
        ),
{
    assert(ls.push(l).last() == l);
    assert(ls.push(l).drop_last() =~= ls);
    assert(addr_entries(ls) + seq![words(trim(l))[0] + " "@ + words(trim(l))[1]] =~= addr_entries(
        ls,
    ).push(words(trim(l))[0] + " "@ + words(trim(l))[1]));
}

/// Any other line adds no address.
pub proof fn law_other_lines_add_no_address(ls: Seq<Seq<char>>, l: Seq<char>)
    requires
        !((starts_with(trim(l), "inet "@) || starts_with(trim(l), "inet6 "@)) && words(
            trim(l),
        ).len() >= 2),
    ensures
        addr_entries(ls.push(l)) == addr_entries(ls),
{
    assert(ls.push(l).last() == l);
    assert(ls.push(l).drop_last() =~= ls);
    assert(addr_entries(ls) + Seq::<Seq<char>>::empty() =~= addr_entries(ls));
}

/// The ranges of the words of the trimmed line `v[a..b]`.
fn trimmed_words(v: &Vec<char>, a: usize, b: usize) -> (r: (usize, usize, Vec<(usize, usize)>))
    requires
        a <= b <= v@.len(),
    ensures
        a <= r.0 <= r.1 <= b,
        v@.subrange(r.0 as int, r.1 as int) == trim(v@.subrange(a as int, b as int)),
        pieces(v@, r.2@) == line_words(v@.subrange(a as int, b as int)),
        ranges_within(r.2@, r.0 as int, r.1 as int),
{
    let (ta, tb) = trim_range(v, a, b);
    let w = word_ranges(v, ta, tb);
    (ta, tb, w)
}

/// The MTU that `ip -d link show` reports.
pub fn parse_mtu(raw: &str) -> (m: String)
    ensures
        m@ == link_mtu(lines(raw@)),
{
    let v = char_vec(raw);
    let lr = line_ranges(&v);
    let ghost ls = lines(v@);
    let mut mtu = String::new();
    let mut i: usize = 0;
    assert(ls.take(0) =~= Seq::<Seq<char>>::empty());
    while i < lr.len()
        invariant
            v@ == raw@,
            ls == lines(v@),
            pieces(v@, lr@) == ls,
            ranges_within(lr@, 0, v@.len() as int),
            0 <= i <= lr@.len(),
            mtu@ == link_mtu(ls.take(i as int)),
        decreases lr@.len() - i,
    {
        let (a, b) = lr[i];
        assert(ls[i as int] == v@.subrange(a as int, b as int));
        let (_ta, _tb, w) = trimmed_words(&v, a, b);
        assert forall|j: int| 0 <= j < w@.len() implies 0 <= #[trigger] w@[j].0 <= w@[j].1
            <= v@.len() by {
            assert(_ta <= w@[j].0 <= w@[j].1 <= _tb);
        }
        let ghost ws = pieces(v@, w@);
        let ghost prev = mtu@;
        let mut k: usize = 0;
        while k < w.len()
            invariant
                v@ == raw@,
                0 <= k <= w@.len(),
                ws == pieces(v@, w@),
                ranges_within(w@, 0, v@.len() as int),
                mtu@ == match mtu_in(ws, k as int) {
                    Some(x) => x,
                    None => prev,
                },
            decreases w@.len() - k,
        {
            let (wa, wb) = w[k];
            if range_eq(&v, wa, wb, "mtu") {
                if k + 1 < w.len() {
                    let (na, nb) = w[k + 1];
                    mtu = range_string(raw, &v, na, nb);
                } else {
                    mtu = String::new();
                }
            }
            k = k + 1;
        }
        assert(ls.take(i + 1).drop_last() =~= ls.take(i as int));
        i = i + 1;
    }
    assert(ls.take(lr@.len() as int) =~= ls);
    mtu
}


/// Where `v[a..b]` stands once every leading copy of `p` is removed.
fn strip_prefix_range(v: &Vec<char>, a: usize, b: usize, p: &str) -> (r: usize)
    requires
        a <= b <= v@.len(),
        p@.len() > 0,
    ensures
        a <= r <= b,
        v@.subrange(r as int, b as int) == strip_prefix_all(v@.subrange(a as int, b as int), p@),
{
    let m = p.unicode_len();
    let mut i = a;
    while range_starts_with(v, i, b, p)
        invariant
            a <= i <= b <= v@.len(),
            m == p@.len() > 0,
            strip_prefix_all(v@.subrange(a as int, b as int), p@) == strip_prefix_all(
                v@.subrange(i as int, b as int),
                p@,
            ),
        decreases b - i,
    {
        assert(v@.subrange(i as int, b as int).skip(m as int) =~= v@.subrange(i + m, b as int));
        i = i + m;
    }
    i
}

/// The link type and hardware address of the last `link/` line of
/// `ip -d link show`, both empty where there is none.
pub fn parse_link_kind(raw: &str) -> (r: (String, String))
    ensures
        (r.0@, r.1@) == match link_kind(lines(raw@)) {
            Some(k) => k,
            None => (seq![], seq![]),
        },
{
    let v = char_vec(raw);
    let lr = line_ranges(&v);
    let ghost ls = lines(v@);
    let mut ty = String::new();
    let mut mac = String::new();
    let mut i: usize = 0;
    assert(ls.take(0) =~= Seq::<Seq<char>>::empty());
    proof {
        reveal_strlit("link/");
    }
    while i < lr.len()
        invariant
            v@ == raw@,
            ls == lines(v@),
            pieces(v@, lr@) == ls,
            ranges_within(lr@, 0, v@.len() as int),
            0 <= i <= lr@.len(),
            "link/"@.len() == 5,
            (ty@, mac@) == match link_kind(ls.take(i as int)) {
                Some(k) => k,
                None => (seq![], seq![]),
            },
        decreases lr@.len() - i,
    {
        let (a, b) = lr[i];
        assert(ls[i as int] == v@.subrange(a as int, b as int));
        let (ta, tb, w) = trimmed_words(&v, a, b);
        if range_starts_with(&v, ta, tb, "link/") && w.len() >= 2 {
            let (a0, b0) = w[0];
            let (a1, b1) = w[1];
            let s0 = strip_prefix_range(&v, a0, b0, "link/");
            ty = range_string(raw, &v, s0, b0);
            mac = range_string(raw, &v, a1, b1);
        }
        assert(ls.take(i + 1).drop_last() =~= ls.take(i as int));
        i = i + 1;
    }
    assert(ls.take(lr@.len() as int) =~= ls);
    (ty, mac)
}

/// The addresses that `ip addr show` lists, as `"<family> <address/prefix>"`.
pub fn parse_addrs(raw: &str) -> (r: Vec<String>)
    ensures
        string_views(r@) == addr_entries(lines(raw@)),
{
    let v = char_vec(raw);
    let lr = line_ranges(&v);
    let ghost ls = lines(v@);
    let mut out: Vec<String> = Vec::new();
    let mut i: usize = 0;
    assert(ls.take(0) =~= Seq::<Seq<char>>::empty());
    assert(string_views(out@) =~= Seq::<Seq<char>>::empty());
    while i < lr.len()
        invariant
            v@ == raw@,
            ls == lines(v@),
            pieces(v@, lr@) == ls,
            ranges_within(lr@, 0, v@.len() as int),
            0 <= i <= lr@.len(),
            string_views(out@) == addr_entries(ls.take(i as int)),
        decreases lr@.len() - i,
    {
        let (a, b) = lr[i];
        assert(ls[i as int] == v@.subrange(a as int, b as int));
        let (ta, tb, w) = trimmed_words(&v, a, b);
        let ghost prev = out@;
        if (range_starts_with(&v, ta, tb, "inet ") || range_starts_with(&v, ta, tb, "inet6 "))
            && w.len() >= 2 {
            let (a0, b0) = w[0];
            let (a1, b1) = w[1];
            let mut e = range_string(raw, &v, a0, b0);
            e.append(" ");
            e.append(raw.substring_char(a1, b1));
            out.push(e);
            assert(string_views(out@) =~= string_views(prev) + seq![e@]);
        } else {
            assert(string_views(prev) + Seq::<Seq<char>>::empty() =~= string_views(prev));
        }
        assert(ls.take(i + 1).drop_last() =~= ls.take(i as int));
        i = i + 1;
    }
    assert(ls.take(lr@.len() as int) =~= ls);
    out
}

/// In `ip -s link show` output, the first word of the line after the last
/// line that trims to `label`, or empty where there is none.
pub fn parse_stat(raw: &str, label: &str) -> (r: String)
    ensures
        r@ == or_empty(stat_after(lines(raw@), label@, lines(raw@).len() as int)),
{
    let v = char_vec(raw);
    let lr = line_ranges(&v);
    let ghost ls = lines(v@);
    let mut cur = String::new();
    let mut i: usize = 0;
    while i < lr.len()
        invariant
            v@ == raw@,
            ls == lines(v@),
            pieces(v@, lr@) == ls,
            lr@.len() == ls.len(),
            ranges_within(lr@, 0, v@.len() as int),
            0 <= i <= lr@.len(),
            cur@ == or_empty(stat_after(ls, label@, i as int)),
        decreases lr@.len() - i,
    {
        let (a, b) = lr[i];
        assert(ls[i as int] == v@.subrange(a as int, b as int));
        let (ta, tb) = trim_range(&v, a, b);
        if range_eq(&v, ta, tb, label) && i + 1 < lr.len() {
            let (na, nb) = lr[i + 1];
            assert(ls[i + 1] == v@.subrange(na as int, nb as int));
            let w = word_ranges(&v, na, nb);
            if w.len() > 0 {
                let (wa, wb) = w[0];
                cur = range_string(raw, &v, wa, wb);
            } else {
                cur = String::from_str("0");
            }
        }
        i = i + 1;
    }
    cur
}

/// The details of an interface from the outputs of `ip -d link show`,
/// `ip addr show` and `ip -s link show` for it.
pub fn parse_detail(raw_link: &str, raw_addr: &str, raw_stats: &str) -> (d: IfaceDetail)
    ensures
        d@ == detail_of(raw_link@, raw_addr@, raw_stats@),
{
    let mtu = parse_mtu(raw_link);
    let (iface_type, mac) = parse_link_kind(raw_link);
    let addrs = parse_addrs(raw_addr);
    let rx_bytes = parse_stat(raw_stats, "RX:");
    let tx_bytes = parse_stat(raw_stats, "TX:");
    IfaceDetail {
        raw_link: String::from_str(raw_link),
        raw_addr: String::from_str(raw_addr),
        raw_stats: String::from_str(raw_stats),
        mtu,
        mac,
        iface_type,
        rx_bytes,
        tx_bytes,
        addrs,
    }
}

} // verus!
