use std::cmp::Ordering;
use std::path::PathBuf;
use vstd::multiset::Multiset;
use vstd::prelude::*;
use vstd::utf8::encode_utf8;

verus! {

/// The letter that output position `i` (0..9) shows when its bit is set:
/// read, write and execute in turn for owner, group and other.
pub open spec fn perm_letter(i: int) -> char {
    if i % 3 == 0 {
        'r'
    } else if i % 3 == 1 {
        'w'
    } else {
        'x'
    }
}

/// Whether bit `p` of `mode` is set.
pub open spec fn mode_bit_set(mode: u32, p: int) -> bool {
    (mode >> (p as u32)) & 1u32 == 1u32
}

/// The nine-character summary of the low nine bits of `mode`: position `i`
/// stands for bit `8 - i`.
pub open spec fn permission_summary(mode: u32) -> Seq<char> {
    Seq::new(9, |i: int| if mode_bit_set(mode, 8 - i) { perm_letter(i) } else { '-' })
}

/// The summary of the permission bits of `mode`, owner first.
pub fn create_permission_string(mode: u32) -> (r: String)
    ensures
        r@ == permission_summary(mode),
{
    let mut s = String::new();
    let mut i: u32 = 0;
    while i < 9
        invariant
            i <= 9,
            s@ == permission_summary(mode).take(i as int),
        decreases 9 - i,
    {
        let set = (mode >> (8 - i)) & 1 == 1;
        proof {
            reveal_strlit("r");
            reveal_strlit("w");
            reveal_strlit("x");
            reveal_strlit("-");
        }
        if !set {
            s.append("-");
        } else if i % 3 == 0 {
            s.append("r");
        } else if i % 3 == 1 {
            s.append("w");
        } else {
            s.append("x");
        }
        assert(s@ =~= permission_summary(mode).take(i + 1));
        i += 1;
    }
    assert(s@ =~= permission_summary(mode));
    s
}

/// What a listed entry is: a directory, or anything else.
#[derive(Debug, Clone, Copy, PartialEq, Eq, Structural)]
pub enum LineItemType {
    Directory,
    File,
}

/// One listed entry: its kind, its nine-character permission summary and
/// its name (the final path component).
#[derive(Debug)]
pub struct LineItem {
    pub item_type: LineItemType,
    pub permissions_string: String,
    pub name: String,
}

/// Byte-wise lexicographic comparison of `a` and `b`, starting at position `i`.
pub open spec fn lex_cmp_from(a: Seq<u8>, b: Seq<u8>, i: int) -> Ordering
    decreases a.len() - i,
{
    if i >= a.len() {
        if i >= b.len() {
            Ordering::Equal
        } else {
            Ordering::Less
        }
    } else if i >= b.len() {
        Ordering::Greater
    } else if a[i] < b[i] {
        Ordering::Less
    } else if a[i] > b[i] {
        Ordering::Greater
    } else {
        lex_cmp_from(a, b, i + 1)
    }
}

/// Byte-wise lexicographic comparison: a proper prefix comes first.
pub open spec fn lex_cmp(a: Seq<u8>, b: Seq<u8>) -> Ordering {
    lex_cmp_from(a, b, 0)
}

/// The ordering with its sides swapped.
pub open spec fn flipped(o: Ordering) -> Ordering {
    match o {
        Ordering::Less => Ordering::Greater,
        Ordering::Equal => Ordering::Equal,
        Ordering::Greater => Ordering::Less,
    }
}

/// The raw bytes that a name is compared by.
pub open spec fn name_bytes(name: Seq<char>) -> Seq<u8> {
    encode_utf8(name)
}

/// The listing order: directories before everything else, then by name,
/// byte by byte. The permission summary takes no part.
pub open spec fn compare_spec(a: LineItem, b: LineItem) -> Ordering {
    match (a.item_type, b.item_type) {
        (LineItemType::Directory, LineItemType::File) => Ordering::Less,
        (LineItemType::File, LineItemType::Directory) => Ordering::Greater,
        _ => lex_cmp(name_bytes(a.name@), name_bytes(b.name@)),
    }
}

/// Two records that the listing order cannot tell apart.
pub open spec fn same_key(a: LineItem, b: LineItem) -> bool {
    a.item_type == b.item_type && a.name@ == b.name@
}

proof fn lemma_lex_flip(a: Seq<u8>, b: Seq<u8>, i: int)
    requires
        0 <= i,
    ensures
        lex_cmp_from(a, b, i) == flipped(lex_cmp_from(b, a, i)),
    decreases a.len() - i,
{
    if i < a.len() && i < b.len() && a[i] == b[i] {
        lemma_lex_flip(a, b, i + 1);
    }
}

proof fn lemma_lex_equal(a: Seq<u8>, b: Seq<u8>, i: int)
    requires
        0 <= i <= a.len(),
        i <= b.len(),
    ensures
        lex_cmp_from(a, b, i) == Ordering::Equal <==> a.subrange(i, a.len() as int)
            == b.subrange(i, b.len() as int),
    decreases a.len() - i,
{
    if i < a.len() && i < b.len() {
        lemma_lex_equal(a, b, i + 1);
        if a[i] == b[i] {
            let ta = a.subrange(i, a.len() as int);
            let tb = b.subrange(i, b.len() as int);
            assert(ta.drop_first() =~= a.subrange(i + 1, a.len() as int));
            assert(tb.drop_first() =~= b.subrange(i + 1, b.len() as int));
            if a.subrange(i + 1, a.len() as int) == b.subrange(i + 1, b.len() as int) {
                assert forall|k: int| 0 <= k < ta.len() implies ta[k] == tb[k] by {
                    if k > 0 {
                        assert(ta[k] == ta.drop_first()[k - 1]);
                        assert(tb[k] == tb.drop_first()[k - 1]);
                    }
                }
                assert(ta =~= tb);
            }
        } else {
            assert(a.subrange(i, a.len() as int)[0] != b.subrange(i, b.len() as int)[0]);
        }
    } else if i < a.len() {
        assert(a.subrange(i, a.len() as int).len() != b.subrange(i, b.len() as int).len());
    } else if i < b.len() {
        assert(a.subrange(i, a.len() as int).len() != b.subrange(i, b.len() as int).len());
    } else {
        assert(a.subrange(i, a.len() as int) =~= b.subrange(i, b.len() as int));
    }
}

proof fn lemma_lex_less_trans(a: Seq<u8>, b: Seq<u8>, c: Seq<u8>, i: int)
    requires
        0 <= i,
        lex_cmp_from(a, b, i) == Ordering::Less,
        lex_cmp_from(b, c, i) == Ordering::Less,
    ensures
        lex_cmp_from(a, c, i) == Ordering::Less,
    decreases a.len() - i,
{
    if i < a.len() && i < b.len() && i < c.len() && a[i] == b[i] && b[i] == c[i] {
        lemma_lex_less_trans(a, b, c, i + 1);
    }
}

proof fn lemma_names_equal(a: Seq<char>, b: Seq<char>)
    ensures
        lex_cmp(name_bytes(a), name_bytes(b)) == Ordering::Equal <==> a == b,
{
    let x = name_bytes(a);
    let y = name_bytes(b);
    lemma_lex_equal(x, y, 0);
    assert(x.subrange(0, x.len() as int) =~= x);
    assert(y.subrange(0, y.len() as int) =~= y);
    vstd::utf8::encode_utf8_decode_utf8(a);
    vstd::utf8::encode_utf8_decode_utf8(b);
}

/// The listing order is a total order on the pair (kind, name): swapping
/// the arguments swaps the outcome, two records compare equal exactly when
/// they have the same kind and the same name, and "before" is transitive.
pub proof fn lemma_compare_total_order(a: LineItem, b: LineItem, c: LineItem)
    ensures
        compare_spec(a, b) == flipped(compare_spec(b, a)),
        compare_spec(a, b) == Ordering::Equal <==> same_key(a, b),
        compare_spec(a, b) == Ordering::Less && compare_spec(b, c) == Ordering::Less
            ==> compare_spec(a, c) == Ordering::Less,
{
    lemma_lex_flip(name_bytes(a.name@), name_bytes(b.name@), 0);
    lemma_names_equal(a.name@, b.name@);
    if compare_spec(a, b) == Ordering::Less && compare_spec(b, c) == Ordering::Less {
        if a.item_type == b.item_type && b.item_type == c.item_type {
            lemma_lex_less_trans(name_bytes(a.name@), name_bytes(b.name@), name_bytes(c.name@), 0);
        }
    }
}

/// Every directory comes before every entry that is not one, whatever
/// their names.
pub proof fn lemma_directory_first(d: LineItem, f: LineItem)
    requires
        d.item_type == LineItemType::Directory,
        f.item_type == LineItemType::File,
    ensures
        compare_spec(d, f) == Ordering::Less,
        compare_spec(f, d) == Ordering::Greater,
{
}

fn compare_names(a: &String, b: &String) -> (r: Ordering)
    ensures
        r == lex_cmp(name_bytes(a@), name_bytes(b@)),
{
    let x = a.as_str().as_bytes();
    let y = b.as_str().as_bytes();
    let mut i: usize = 0;
    while i < x.len() && i < y.len()
        invariant
            x@ == name_bytes(a@),
            y@ == name_bytes(b@),
            i <= x@.len(),
            i <= y@.len(),
            lex_cmp_from(x@, y@, i as int) == lex_cmp(x@, y@),
        decreases x@.len() - i,
    {
        if x[i] < y[i] {
            return Ordering::Less;
        } else if x[i] > y[i] {
            return Ordering::Greater;
        }
        i += 1;
    }
    if x.len() == y.len() {
        Ordering::Equal
    } else if x.len() < y.len() {
        Ordering::Less
    } else {
        Ordering::Greater
    }
}

impl LineItem {
    /// Where `self` stands in the listing relative to `other`.
    pub fn compare(&self, other: &LineItem) -> (r: Ordering)
        ensures
            r == compare_spec(*self, *other),
    {
        match (self.item_type, other.item_type) {
            (LineItemType::Directory, LineItemType::File) => Ordering::Less,
            (LineItemType::File, LineItemType::Directory) => Ordering::Greater,
            _ => compare_names(&self.name, &other.name),
        }
    }
}


/// Whether `s` is in listing order.
pub open spec fn is_sorted(s: Seq<LineItem>) -> bool {
    forall|i: int, j: int|
        0 <= i < j < s.len() ==> compare_spec(#[trigger] s[i], #[trigger] s[j]) != Ordering::Greater
}

/// A name that begins with a dot.
pub open spec fn is_hidden(name: Seq<char>) -> bool {
    name.len() > 0 && name[0] == '.'
}

/// Whether the listing shows `e`: hidden entries only when `all` is set.
pub open spec fn is_shown(e: LineItem, all: bool) -> bool {
    all || !is_hidden(e.name@)
}

/// The entries of `items` that the listing shows, in their given order.
pub open spec fn shown_items(items: Seq<LineItem>, all: bool) -> Seq<LineItem> {
    items.filter(|e: LineItem| is_shown(e, all))
}

proof fn lemma_less_then_not_greater(a: LineItem, b: LineItem, c: LineItem)
    requires
        compare_spec(a, b) == Ordering::Less,
        compare_spec(b, c) != Ordering::Greater,
    ensures
        compare_spec(a, c) == Ordering::Less,
{
    lemma_compare_total_order(a, b, c);
    lemma_compare_total_order(b, c, a);
}

proof fn lemma_insert_sorted(s: Seq<LineItem>, k: int, x: LineItem)
    requires
        is_sorted(s),
        0 <= k <= s.len(),
        forall|j: int| 0 <= j < k ==> compare_spec(x, #[trigger] s[j]) != Ordering::Less,
        k < s.len() ==> compare_spec(x, s[k]) == Ordering::Less,
    ensures
        is_sorted(s.insert(k, x)),
{
    let t = s.insert(k, x);
    assert forall|i: int, j: int| 0 <= i < j < t.len() implies compare_spec(
        #[trigger] t[i],
        #[trigger] t[j],
    ) != Ordering::Greater by {
        if i == k && j - 1 > k {
            lemma_less_then_not_greater(x, s[k], s[j - 1]);
        } else if j == k {
            lemma_compare_total_order(s[i], x, x);
        } else if i < k && j > k {
            assert(compare_spec(s[i], s[j - 1]) != Ordering::Greater);
        }
    }
}

/// The entries of `items` that the listing shows (all of them when `all`
/// is set, else those whose name does not begin with a dot), in listing
/// order.
pub fn arrange_listing(items: Vec<LineItem>, all: bool) -> (r: Vec<LineItem>)
    ensures
        is_sorted(r@),
        r@.to_multiset() == shown_items(items@, all).to_multiset(),
{
    broadcast use vstd::seq_lib::group_to_multiset_ensures, vstd::multiset::group_multiset_axioms;

    let ghost orig = items@;
    let mut rest = items;
    let mut out: Vec<LineItem> = Vec::new();
    proof {
        assert(rest@ =~= orig.take(rest@.len() as int));
        assert(out@.to_multiset() =~= Multiset::empty());
        assert(out@.to_multiset().add(shown_items(rest@, all).to_multiset())
            =~= shown_items(orig, all).to_multiset());
    }
    while rest.len() > 0
        invariant
            rest@ == orig.take(rest@.len() as int),
            rest@.len() <= orig.len(),
            is_sorted(out@),
            out@.to_multiset().add(shown_items(rest@, all).to_multiset())
                == shown_items(orig, all).to_multiset(),
        decreases rest@.len(),
    {
        let ghost before = rest@;
        let x = rest.pop().unwrap();
        proof {
            assert(before =~= rest@.push(x));
            rest@.lemma_filter_push(x, |e: LineItem| is_shown(e, all));
            vstd::seq_lib::to_multiset_build(shown_items(rest@, all), x);
            assert(rest@ =~= orig.take(rest@.len() as int));
        }
        if all || !is_dotfile(x.name.as_str()) {
            let mut k: usize = 0;
            while k < out.len()
                invariant
                    k <= out@.len(),
                    forall|j: int| 0 <= j < k ==> compare_spec(x, #[trigger] out@[j]) != Ordering::Less,
                ensures
                    k <= out@.len(),
                    forall|j: int| 0 <= j < k ==> compare_spec(x, #[trigger] out@[j]) != Ordering::Less,
                    k < out@.len() ==> compare_spec(x, out@[k as int]) == Ordering::Less,
                decreases out@.len() - k,
            {
                if let Ordering::Less = x.compare(&out[k]) {
                    break;
                }
                k += 1;
            }
            proof {
                lemma_insert_sorted(out@, k as int, x);
                vstd::seq_lib::to_multiset_insert(out@, k as int, x);
            }
            out.insert(k, x);
            proof {
                assert(out@.to_multiset().add(shown_items(rest@, all).to_multiset())
                    =~= shown_items(orig, all).to_multiset());
            }
        }
    }
    proof {
        assert(shown_items(rest@, all) =~= Seq::<LineItem>::empty());
        assert(shown_items(rest@, all).to_multiset() =~= Multiset::empty());
        assert(out@.to_multiset() =~= out@.to_multiset().add(Multiset::empty()));
    }
    out
}

/// Whether `name` begins with a dot.
pub fn is_dotfile(name: &str) -> (r: bool)
    ensures
        r == is_hidden(name@),
{
    name.unicode_len() > 0 && name.get_char(0) == '.'
}


/// The marker that opens a rendered line.
pub open spec fn type_marker(t: LineItemType) -> char {
    match t {
        LineItemType::Directory => 'd',
        LineItemType::File => '-',
    }
}

/// The line that `e` renders to: marker, permission summary, a space, the
/// name, and a slash after the name of a directory.
pub open spec fn render_spec(e: LineItem) -> Seq<char> {
    seq![type_marker(e.item_type)] + e.permissions_string@ + seq![' '] + e.name@ + if e.item_type
        == LineItemType::Directory {
        seq!['/']
    } else {
        Seq::empty()
    }
}

/// A character that may stand in a permission summary.
pub open spec fn is_permission_char(c: char) -> bool {
    c == 'r' || c == 'w' || c == 'x' || c == '-'
}

/// A record as the listing builds it: a nine-character summary of
/// permission characters and a non-empty name.
pub open spec fn well_formed(e: LineItem) -> bool {
    &&& e.permissions_string@.len() == 9
    &&& forall|i: int| 0 <= i < 9 ==> is_permission_char(#[trigger] e.permissions_string@[i])
    &&& e.name@.len() > 0
}

/// The summary of any mode has nine characters, and the character at the
/// position of bit `p` is that position's letter exactly when bit `p` of
/// `mode` is set, else a dash.
pub proof fn lemma_permission_summary_shape(mode: u32)
    ensures
        permission_summary(mode).len() == 9,
        forall|i: int| 0 <= i < 9 ==> is_permission_char(#[trigger] permission_summary(mode)[i]),
        forall|p: u32|
            p < 9 ==> (#[trigger] permission_summary(mode)[8 - p] == if mode & (1u32 << p) != 0 {
                perm_letter(8 - p)
            } else {
                '-'
            }),
{
    assert forall|p: u32| p < 9 implies (#[trigger] permission_summary(mode)[8 - p] == if mode & (1u32
        << p) != 0 {
        perm_letter(8 - p)
    } else {
        '-'
    }) by {
        assert(((mode >> p) & 1u32 == 1u32) == (mode & (1u32 << p) != 0)) by (bit_vector)
            requires
                p < 9,
        ;
        assert((8 - (8 - p)) as u32 == p);
    }
}

/// Every rendered line of a well-formed record is a marker `d` or `-`,
/// nine permission characters, a space and a non-empty rest; the marker is
/// `d` exactly for a directory, whose line ends in a slash; the line of any
/// other record ends in a slash only where its name does.
pub proof fn lemma_render_shape(e: LineItem)
    requires
        well_formed(e),
    ensures
        ({
            let r = render_spec(e);
            &&& r.len() >= 12
            &&& r[0] == 'd' || r[0] == '-'
            &&& (r[0] == 'd' <==> e.item_type == LineItemType::Directory)
            &&& forall|i: int| 1 <= i < 10 ==> is_permission_char(#[trigger] r[i])
            &&& r[10] == ' '
            &&& e.item_type == LineItemType::Directory ==> r.last() == '/'
            &&& e.item_type == LineItemType::File ==> (r.last() == '/' <==> e.name@.last() == '/')
        }),
{
    let r = render_spec(e);
    assert forall|i: int| 1 <= i < 10 implies is_permission_char(#[trigger] r[i]) by {
        assert(r[i] == e.permissions_string@[i - 1]);
    }
}

/// Without `all` no shown entry has a hidden name; with `all` every entry
/// is shown, each as often as it was given.
pub proof fn lemma_hidden_filter(items: Seq<LineItem>, all: bool)
    ensures
        !all ==> forall|i: int|
            0 <= i < shown_items(items, all).len() ==> !is_hidden(
                #[trigger] shown_items(items, all)[i].name@,
            ),
        all ==> shown_items(items, all) == items,
    decreases items.len(),
{
    let pred = |e: LineItem| is_shown(e, all);
    items.filter_lemma(pred);
    if all && items.len() > 0 {
        let init = items.drop_last();
        lemma_hidden_filter(init, all);
        init.lemma_filter_push(items.last(), pred);
        assert(init.push(items.last()) =~= items);
    } else if all {
        assert(items.filter(pred) =~= items);
    }
}

/// Relies on Path::file_name, with the component decoded by
/// OsStr::to_string_lossy: the final component of `path`, if it has one.
pub uninterp spec fn final_component_of(path: PathBuf) -> Option<Seq<char>>;

#[verifier::external_type_specification]
#[verifier::external_body]
pub struct ExPathBuf(PathBuf);

/// Relies on Path::file_name: the final component of the path, none where
/// the path ends in `..` or is a root; the component is decoded with
/// OsStr::to_string_lossy, which puts U+FFFD for invalid sequences.
#[verifier::external_body]
fn final_component(path: &PathBuf) -> (r: Option<String>)
    ensures
        r is None <==> final_component_of(*path) is None,
        r is Some ==> final_component_of(*path) == Some(r->0@),
{
    path.file_name().map(|n| n.to_string_lossy().into_owned())
}

impl LineItem {
    /// A record of the given kind, permission summary and name.
    pub fn new(item_type: LineItemType, permissions_string: String, name: String) -> (r: LineItem)
        ensures
            r.item_type == item_type,
            r.permissions_string@ == permissions_string@,
            r.name@ == name@,
    {
        LineItem { item_type, permissions_string, name }
    }

    /// The record of the entry at `path`, from a snapshot of its metadata:
    /// whether it is a directory and its mode bits. None where the path has
    /// no final component.
    pub fn from_path_buf(path: PathBuf, is_dir: bool, mode: u32) -> (r: Option<LineItem>)
        ensures
            r is None <==> final_component_of(path) is None,
            r is Some ==> {
                let e = r->0;
                &&& e.item_type == if is_dir {
                    LineItemType::Directory
                } else {
                    LineItemType::File
                }
                &&& e.permissions_string@ == permission_summary(mode)
                &&& Some(e.name@) == final_component_of(path)
            },
    {
        let item_type = if is_dir {
            LineItemType::Directory
        } else {
            LineItemType::File
        };
        match final_component(&path) {
            Some(name) => Some(LineItem::new(item_type, create_permission_string(mode), name)),
            None => None,
        }
    }

    /// The line that this record renders to.
    pub fn render(&self) -> (r: String)
        ensures
            r@ == render_spec(*self),
    {
        let mut s = String::new();
        proof {
            reveal_strlit("d");
            reveal_strlit("-");
            reveal_strlit(" ");
            reveal_strlit("/");
        }
        match self.item_type {
            LineItemType::Directory => s.append("d"),
            LineItemType::File => s.append("-"),
        }
        s.append(self.permissions_string.as_str());
        s.append(" ");
        s.append(self.name.as_str());
        if self.item_type == LineItemType::Directory {
            s.append("/");
        }
        assert(s@ =~= render_spec(*self));
        s
    }
}

/// The rendered lines of `items`, one per record, in the same order.
pub fn render_lines(items: &Vec<LineItem>) -> (r: Vec<String>)
    ensures
        r@.len() == items@.len(),
        forall|i: int| 0 <= i < items@.len() ==> (#[trigger] r@[i])@ == render_spec(items@[i]),
{
    let mut out: Vec<String> = Vec::new();
    let mut i: usize = 0;
    while i < items.len()
        invariant
            i <= items@.len(),
            out@.len() == i,
            forall|j: int| 0 <= j < i ==> (#[trigger] out@[j])@ == render_spec(items@[j]),
        decreases items@.len() - i,
    {
        out.push(items[i].render());
        i += 1;
    }
    out
}

impl PartialEq for LineItem {
    fn eq(&self, other: &LineItem) -> (r: bool) {
        self.item_type == other.item_type && self.permissions_string == other.permissions_string
            && self.name == other.name
    }
}

impl vstd::std_specs::cmp::PartialEqSpecImpl for LineItem {
    open spec fn obeys_eq_spec() -> bool {
        true
    }

    open spec fn eq_spec(&self, other: &LineItem) -> bool {
        &&& self.item_type == other.item_type
        &&& self.permissions_string@ == other.permissions_string@
        &&& self.name@ == other.name@
    }
}

impl Eq for LineItem {

}

} // verus!
