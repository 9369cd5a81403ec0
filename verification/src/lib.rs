//! Parsing and querying of weekly phone-availability records.
//!
//! A plain-text document lists contact offices: a line of person names, a
//! line of phone numbers, and then any number of schedule lines (days plus
//! time ranges) and free-text remark lines. This crate parses such a
//! document into structured records and answers which offices are reachable
//! at a given instant of the working week.

use vstd::prelude::*;

pub mod hrdb;
pub mod time;

use crate::time::{active_windows, OfficeHour, OfficeHours, Time};

verus! {

/// Relies on String::push: it appends exactly the given character.
#[verifier::external_body]
fn push_char(s: &mut String, c: char)
    ensures
        final(s)@ == old(s)@.push(c),
{
    s.push(c);
}

/// The characters of a string, one by one.
pub fn chars_of(s: &str) -> (r: Vec<char>)
    ensures
        r@ == s@,
{
    let n = s.unicode_len();
    let mut r = Vec::<char>::new();
    let mut i: usize = 0;
    while i < n
        invariant
            i <= n,
            n == s@.len(),
            r@ == s@.subrange(0, i as int),
        decreases n - i,
    {
        r.push(s.get_char(i));
        proof {
            assert(r@ =~= s@.subrange(0, i + 1));
        }
        i = i + 1;
    }
    proof {
        assert(s@.subrange(0, s@.len() as int) =~= s@);
    }
    r
}

/// The string made of the characters of `s` from `start` (included) to
/// `end` (excluded).
pub fn string_from_range(s: &[char], start: usize, end: usize) -> (r: String)
    requires
        start <= end <= s@.len(),
    ensures
        r@ == s@.subrange(start as int, end as int),
    {
    let mut r = String::new();
    let mut i: usize = start;
    while i < end
        invariant
            start <= i <= end <= s@.len(),
            r@ == s@.subrange(start as int, i as int),
        decreases end - i,
    {
        push_char(&mut r, s[i]);
        proof {
            assert(r@ =~= s@.subrange(start as int, i + 1));
        }
        i = i + 1;
    }
    r
}

/// The separator written between the entries of a displayed list.
pub open spec fn comma_space() -> Seq<char> {
    seq![',', ' ']
}

/// The parts joined with a comma and a space between each two neighbours.
pub open spec fn spec_join(parts: Seq<Seq<char>>) -> Seq<char>
    decreases parts.len(),
{
    if parts.len() == 0 {
        Seq::empty()
    } else if parts.len() == 1 {
        parts[0]
    } else {
        spec_join(parts.drop_last()) + comma_space() + parts.last()
    }
}

/// One line listing all parts in order, comma-and-space separated, as the
/// document format writes its name and phone lists.
pub fn display_simple_list(parts: &Vec<String>) -> (r: String)
    ensures
        r@ == spec_join(parts.deep_view()),
{
    let ghost all = parts.deep_view();
    let mut r = String::new();
    let mut i: usize = 0;
    while i < parts.len()
        invariant
            i <= parts.len(),
            all == parts.deep_view(),
            all.len() == parts.len(),
            forall|k: int| 0 <= k < all.len() ==> all[k] == parts@[k]@,
            r@ == spec_join(all.subrange(0, i as int)),
        decreases parts.len() - i,
    {
        if i > 0 {
            push_char(&mut r, ',');
            push_char(&mut r, ' ');
        }
        r.append(parts[i].as_str());
        proof {
            let upto = all.subrange(0, i + 1);
            assert(upto.drop_last() =~= all.subrange(0, i as int));
            assert(upto.last() == all[i as int]);
            assert(r@ =~= spec_join(upto));
        }
        i = i + 1;
    }
    proof {
        assert(all.subrange(0, all.len() as int) =~= all);
    }
    r
}

/// The views of all elements, each a sequence of characters.
pub open spec fn texts_of<T: View<V = Seq<char>>>(s: Seq<T>) -> Seq<Seq<char>> {
    s.map_values(|x: T| x@)
}

/// The name of a person: free text without commas or line breaks.
#[derive(Debug)]
pub struct Name {
    data: String,
}

impl View for Name {
    type V = Seq<char>;

    closed spec fn view(&self) -> Seq<char> {
        self.data@
    }
}

impl Clone for Name {
    fn clone(&self) -> (r: Name)
        ensures
            r@ == self@,
    {
        Name { data: self.data.clone() }
    }
}

impl Name {
    pub fn new(data: String) -> (r: Name)
        ensures
            r@ == data@,
    {
        Name { data }
    }

    pub fn as_str(&self) -> (r: &str)
        ensures
            r@ == self@,
    {
        self.data.as_str()
    }
}

/// A set of `Name`s.
#[derive(Debug)]
pub struct Names {
    data: Vec<Name>,
}

impl View for Names {
    type V = Seq<Seq<char>>;

    closed spec fn view(&self) -> Seq<Seq<char>> {
        texts_of(self.data@)
    }
}

impl Clone for Names {
    fn clone(&self) -> (r: Names)
        ensures
            r@ == self@,
    {
        let mut data = Vec::<Name>::new();
        let mut i: usize = 0;
        while i < self.data.len()
            invariant
                i <= self.data.len(),
                data@.len() == i,
                texts_of(data@) =~= self@.subrange(0, i as int),
            decreases self.data.len() - i,
        {
            data.push(self.data[i].clone());
            proof {
                assert(texts_of(data@) =~= self@.subrange(0, i + 1));
            }
            i = i + 1;
        }
        proof {
            assert(self@.subrange(0, self@.len() as int) =~= self@);
        }
        Names { data }
    }
}

impl Names {
    pub fn new(data: Vec<Name>) -> (r: Names)
        ensures
            r@ == texts_of(data@),
    {
        Names { data }
    }

    pub fn len(&self) -> (r: usize)
        ensures
            r == self@.len(),
    {
        self.data.len()
    }

    pub fn get(&self, i: usize) -> (r: &Name)
        requires
            i < self@.len(),
        ensures
            r@ == self@[i as int],
    {
        &self.data[i]
    }
}

/// A phone number, kept as its digits-only text.
#[derive(Debug)]
pub struct Phone {
    data: String,
}

#[derive(Debug, PartialEq, Eq, Structural, Clone, Copy)]
pub enum PhoneErr {
    InvalidChar,
}

/// Whether the character is one of the ten decimal digits.
pub open spec fn is_decimal_digit(c: char) -> bool {
    '0' as u32 <= c as u32 && c as u32 <= '9' as u32
}

/// Whether every character of the text is a decimal digit.
pub open spec fn all_decimal_digits(s: Seq<char>) -> bool {
    forall|i: int| 0 <= i < s.len() ==> is_decimal_digit(#[trigger] s[i])
}

impl View for Phone {
    type V = Seq<char>;

    closed spec fn view(&self) -> Seq<char> {
        self.data@
    }
}

impl Clone for Phone {
    fn clone(&self) -> (r: Phone)
        ensures
            r@ == self@,
    {
        Phone { data: self.data.clone() }
    }
}

impl Phone {
    /// Accepts exactly the texts whose characters are all decimal digits,
    /// and keeps the text unchanged.
    pub fn new(data: String) -> (r: Result<Phone, PhoneErr>)
        ensures
            all_decimal_digits(data@) ==> (r matches Ok(p) && p@ == data@),
            !all_decimal_digits(data@) ==> r == Err::<Phone, PhoneErr>(PhoneErr::InvalidChar),
    {
        let s = data.as_str();
        let n = s.unicode_len();
        let mut i: usize = 0;
        while i < n
            invariant
                i <= n,
                n == data@.len(),
                s@ == data@,
                forall|k: int| 0 <= k < i ==> is_decimal_digit(#[trigger] data@[k]),
            decreases n - i,
        {
            let c = s.get_char(i) as u32;
            if c < '0' as u32 || c > '9' as u32 {
                return Err(PhoneErr::InvalidChar);
            }
            i = i + 1;
        }
        Ok(Phone { data })
    }

    pub fn as_str(&self) -> (r: &str)
        ensures
            r@ == self@,
    {
        self.data.as_str()
    }

    /// A phone value from text already known to be digits only.
    pub(crate) fn from_digits(data: String) -> (r: Phone)
        requires
            all_decimal_digits(data@),
        ensures
            r@ == data@,
    {
        Phone { data }
    }
}

/// A set of `Phone`s.
#[derive(Debug)]
pub struct Phones {
    data: Vec<Phone>,
}

impl View for Phones {
    type V = Seq<Seq<char>>;

    closed spec fn view(&self) -> Seq<Seq<char>> {
        texts_of(self.data@)
    }
}

impl Clone for Phones {
    fn clone(&self) -> (r: Phones)
        ensures
            r@ == self@,
    {
        let mut data = Vec::<Phone>::new();
        let mut i: usize = 0;
        while i < self.data.len()
            invariant
                i <= self.data.len(),
                data@.len() == i,
                texts_of(data@) =~= self@.subrange(0, i as int),
            decreases self.data.len() - i,
        {
            data.push(self.data[i].clone());
            proof {
                assert(texts_of(data@) =~= self@.subrange(0, i + 1));
            }
            i = i + 1;
        }
        proof {
            assert(self@.subrange(0, self@.len() as int) =~= self@);
        }
        Phones { data }
    }
}

impl Phones {
    pub fn new(data: Vec<Phone>) -> (r: Phones)
        ensures
            r@ == texts_of(data@),
    {
        Phones { data }
    }

    pub fn len(&self) -> (r: usize)
        ensures
            r == self@.len(),
    {
        self.data.len()
    }

    pub fn get(&self, i: usize) -> (r: &Phone)
        requires
            i < self@.len(),
        ensures
            r@ == self@[i as int],
    {
        &self.data[i]
    }
}

/// A free-text remark line.
#[derive(Debug)]
pub struct Comment {
    data: String,
}

impl View for Comment {
    type V = Seq<char>;

    closed spec fn view(&self) -> Seq<char> {
        self.data@
    }
}

impl Clone for Comment {
    fn clone(&self) -> (r: Comment)
        ensures
            r@ == self@,
    {
        Comment { data: self.data.clone() }
    }
}

impl Comment {
    pub fn new(data: String) -> (r: Comment)
        ensures
            r@ == data@,
    {
        Comment { data }
    }

    pub fn as_str(&self) -> (r: &str)
        ensures
            r@ == self@,
    {
        self.data.as_str()
    }
}

/// A set of `Comment`s.
#[derive(Debug)]
pub struct Comments {
    data: Vec<Comment>,
}

impl View for Comments {
    type V = Seq<Seq<char>>;

    closed spec fn view(&self) -> Seq<Seq<char>> {
        texts_of(self.data@)
    }
}

impl Clone for Comments {
    fn clone(&self) -> (r: Comments)
        ensures
            r@ == self@,
    {
        let mut data = Vec::<Comment>::new();
        let mut i: usize = 0;
        while i < self.data.len()
            invariant
                i <= self.data.len(),
                data@.len() == i,
                texts_of(data@) =~= self@.subrange(0, i as int),
            decreases self.data.len() - i,
        {
            data.push(self.data[i].clone());
            proof {
                assert(texts_of(data@) =~= self@.subrange(0, i + 1));
            }
            i = i + 1;
        }
        proof {
            assert(self@.subrange(0, self@.len() as int) =~= self@);
        }
        Comments { data }
    }
}

impl Comments {
    pub fn empty() -> (r: Comments)
        ensures
            r@ == Seq::<Seq<char>>::empty(),
    {
        Comments { data: Vec::new() }
    }

    pub fn push(&mut self, comment: Comment)
        ensures
            final(self)@ == old(self)@.push(comment@),
    {
        self.data.push(comment);
        proof {
            assert(final(self)@ =~= old(self)@.push(comment@));
        }
    }

    pub fn len(&self) -> (r: usize)
        ensures
            r == self@.len(),
    {
        self.data.len()
    }

    pub fn get(&self, i: usize) -> (r: &Comment)
        requires
            i < self@.len(),
        ensures
            r@ == self@[i as int],
    {
        &self.data[i]
    }
}

/// The abstract value of one office record: its names, phone numbers,
/// availability windows and remarks, each in document order.
pub ghost struct OfficeView {
    pub names: Seq<Seq<char>>,
    pub phones: Seq<Seq<char>>,
    pub times: Seq<OfficeHour>,
    pub comments: Seq<Seq<char>>,
}

/// Whether any of the office's windows holds the instant.
pub open spec fn office_reachable(o: OfficeView, t: Time) -> bool {
    exists|i: int| 0 <= i < o.times.len() && o.times[i].spec_contains(t)
}

/// The office reduced to the windows that hold the instant; all other
/// fields are kept unchanged.
pub open spec fn restrict_office(o: OfficeView, t: Time) -> OfficeView {
    OfficeView {
        names: o.names,
        phones: o.phones,
        times: active_windows(o.times, t),
        comments: o.comments,
    }
}

/// The offices reachable at the instant, in order, each reduced to its
/// windows that hold the instant.
pub open spec fn filter_active(os: Seq<OfficeView>, t: Time) -> Seq<OfficeView>
    decreases os.len(),
{
    if os.len() == 0 {
        Seq::empty()
    } else {
        filter_active(os.drop_last(), t) + if office_reachable(os.last(), t) {
            seq![restrict_office(os.last(), t)]
        } else {
            Seq::empty()
        }
    }
}

/// Every window that `active_windows` keeps holds the instant.
pub proof fn lemma_active_windows_pred(s: Seq<OfficeHour>, t: Time)
    ensures
        forall|j: int|
            0 <= j < active_windows(s, t).len() ==> #[trigger] active_windows(
                s,
                t,
            )[j].spec_contains(t),
    decreases s.len(),
{
    if s.len() > 0 {
        lemma_active_windows_pred(s.drop_last(), t);
        let a = active_windows(s, t);
        let b = active_windows(s.drop_last(), t);
        assert forall|j: int| 0 <= j < a.len() implies a[j].spec_contains(t) by {
            if j < b.len() {
                assert(a[j] == b[j]);
            } else {
                assert(a[j] == s.last());
            }
        }
    }
}

/// When every window of `s` holds the instant, `active_windows` keeps all
/// of `s` unchanged.
pub proof fn lemma_active_windows_all(s: Seq<OfficeHour>, t: Time)
    requires
        forall|i: int| 0 <= i < s.len() ==> #[trigger] s[i].spec_contains(t),
    ensures
        active_windows(s, t) == s,
    decreases s.len(),
{
    if s.len() > 0 {
        lemma_active_windows_all(s.drop_last(), t);
        assert(active_windows(s, t) =~= s);
    } else {
        assert(active_windows(s, t) =~= s);
    }
}

/// Some window of `s` holds the instant exactly when `active_windows`
/// keeps at least one window.
pub proof fn lemma_active_windows_len(s: Seq<OfficeHour>, t: Time)
    ensures
        active_windows(s, t).len() > 0 <==> exists|i: int|
            0 <= i < s.len() && s[i].spec_contains(t),
    decreases s.len(),
{
    if s.len() > 0 {
        lemma_active_windows_len(s.drop_last(), t);
        if s.last().spec_contains(t) {
            assert(s[s.len() - 1].spec_contains(t));
        } else {
            if exists|i: int| 0 <= i < s.len() && s[i].spec_contains(t) {
                let i = choose|i: int| 0 <= i < s.len() && s[i].spec_contains(t);
                assert(s.drop_last()[i].spec_contains(t));
            }
        }
    }
}

/// Filtering one more office on the right only appends its reduced form
/// when it is reachable.
proof fn lemma_filter_active_push(os: Seq<OfficeView>, o: OfficeView, t: Time)
    ensures
        filter_active(os.push(o), t) == filter_active(os, t) + if office_reachable(o, t) {
            seq![restrict_office(o, t)]
        } else {
            Seq::<OfficeView>::empty()
        },
{
    assert(os.push(o).drop_last() =~= os);
    assert(os.push(o).last() == o);
}

/// Filtering the active offices is a projection: applying it a second time
/// with the same instant hands back the first result unchanged. In
/// particular any two applications to the same collection and instant are
/// equal.
pub proof fn lemma_filter_active_projection(os: Seq<OfficeView>, t: Time)
    ensures
        filter_active(filter_active(os, t), t) == filter_active(os, t),
    decreases os.len(),
{
    if os.len() == 0 {
    } else {
        let rest = os.drop_last();
        let o = os.last();
        lemma_filter_active_projection(rest, t);
        if office_reachable(o, t) {
            let y = restrict_office(o, t);
            lemma_active_windows_pred(o.times, t);
            lemma_active_windows_len(o.times, t);
            assert(office_reachable(y, t)) by {
                assert(y.times.len() > 0);
                assert(y.times[0].spec_contains(t));
            }
            lemma_active_windows_all(y.times, t);
            assert(restrict_office(y, t) == y);
            assert(filter_active(os, t) =~= filter_active(rest, t).push(y));
            lemma_filter_active_push(filter_active(rest, t), y, t);
            assert(filter_active(filter_active(os, t), t) =~= filter_active(os, t));
        } else {
            assert(filter_active(os, t) =~= filter_active(rest, t));
        }
    }
}

/// With an instant that no window of any office holds, nothing is kept.
pub proof fn lemma_filter_active_empty(os: Seq<OfficeView>, t: Time)
    requires
        forall|i: int| 0 <= i < os.len() ==> !office_reachable(#[trigger] os[i], t),
    ensures
        filter_active(os, t) == Seq::<OfficeView>::empty(),
    decreases os.len(),
{
    if os.len() > 0 {
        assert(!office_reachable(os[os.len() - 1], t));
        lemma_filter_active_empty(os.drop_last(), t);
        assert(filter_active(os, t) =~= Seq::<OfficeView>::empty());
    }
}

/// One contact record of the document: who can be called, under which
/// numbers, when, and any remarks.
#[derive(Debug)]
pub struct Office {
    names: Names,
    phones: Phones,
    times: OfficeHours,
    comments: Comments,
}

impl View for Office {
    type V = OfficeView;

    closed spec fn view(&self) -> OfficeView {
        OfficeView {
            names: self.names@,
            phones: self.phones@,
            times: self.times@,
            comments: self.comments@,
        }
    }
}

impl Clone for Office {
    fn clone(&self) -> (r: Office)
        ensures
            r@ == self@,
    {
        Office {
            names: self.names.clone(),
            phones: self.phones.clone(),
            times: self.times.clone(),
            comments: self.comments.clone(),
        }
    }
}

impl Office {
    /// A fresh record from its two header lists, with no windows and no
    /// remarks yet.
    pub fn new(names: Names, phones: Phones) -> (r: Office)
        ensures
            r@ == (OfficeView {
                names: names@,
                phones: phones@,
                times: Seq::empty(),
                comments: Seq::empty(),
            }),
    {
        let times = OfficeHours::empty();
        let comments = Comments::empty();
        Office { names, phones, times, comments }
    }

    /// Append the given windows, in their order, after the present ones.
    pub fn add_times(&mut self, new_times: Vec<OfficeHour>)
        ensures
            final(self)@ == (OfficeView {
                names: old(self)@.names,
                phones: old(self)@.phones,
                times: old(self)@.times + new_times@,
                comments: old(self)@.comments,
            }),
    {
        self.times.append(new_times);
    }

    /// Append the remark after the present ones.
    pub fn add_comment(&mut self, comment: Comment)
        ensures
            final(self)@ == (OfficeView {
                names: old(self)@.names,
                phones: old(self)@.phones,
                times: old(self)@.times,
                comments: old(self)@.comments.push(comment@),
            }),
    {
        self.comments.push(comment);
    }

    /// Whether any window of this office holds the instant.
    pub fn reachable(&self, time: &Time) -> (r: bool)
        ensures
            r == office_reachable(self@, *time),
    {
        let r = self.times.contain(time);
        proof {
            if exists|i: int| 0 <= i < self.times@.len() && self.times@[i].spec_contains(*time) {
                let i = choose|i: int|
                    0 <= i < self.times@.len() && self.times@[i].spec_contains(*time);
                assert(self@.times[i].spec_contains(*time));
            }
            if office_reachable(self@, *time) {
                let i = choose|i: int|
                    0 <= i < self@.times.len() && self@.times[i].spec_contains(*time);
                assert(self.times@[i].spec_contains(*time));
            }
        }
        r
    }

    pub fn names(&self) -> (r: &Names)
        ensures
            r@ == self@.names,
    {
        &self.names
    }

    pub fn phones(&self) -> (r: &Phones)
        ensures
            r@ == self@.phones,
    {
        &self.phones
    }

    pub fn times(&self) -> (r: &OfficeHours)
        ensures
            r@ == self@.times,
    {
        &self.times
    }

    pub fn comments(&self) -> (r: &Comments)
        ensures
            r@ == self@.comments,
    {
        &self.comments
    }
}

/// The abstract values of the offices, in order.
pub open spec fn views_of(s: Seq<Office>) -> Seq<OfficeView> {
    s.map_values(|o: Office| o@)
}

/// All offices of one parsed document, in source order.
#[derive(Debug)]
pub struct Offices {
    data: Vec<Office>,
}

impl View for Offices {
    type V = Seq<OfficeView>;

    closed spec fn view(&self) -> Seq<OfficeView> {
        views_of(self.data@)
    }
}

impl Offices {
    pub fn new(data: Vec<Office>) -> (r: Offices)
        ensures
            r@ == views_of(data@),
    {
        Offices { data }
    }

    pub fn len(&self) -> (r: usize)
        ensures
            r == self@.len(),
    {
        self.data.len()
    }

    pub fn get(&self, i: usize) -> (r: &Office)
        requires
            i < self@.len(),
        ensures
            r@ == self@[i as int],
    {
        &self.data[i]
    }

    /// The offices reachable at the instant, each reduced to the windows
    /// that hold it; offices with no such window are left out. The source
    /// collection is read, never changed, so a second application with the
    /// same instant hands back an equal result.
    pub fn filter_time(&self, time: &Time) -> (r: Offices)
        ensures
            r@ == filter_active(self@, *time),
    {
        let mut data = Vec::<Office>::new();
        let mut k: usize = 0;
        while k < self.data.len()
            invariant
                k <= self.data.len(),
                views_of(data@).len() == data@.len(),
                views_of(data@) =~= filter_active(self@.subrange(0, k as int), *time),
            decreases self.data.len() - k,
        {
            let ghost prefix = self@.subrange(0, k as int);
            let office = &self.data[k];
            proof {
                assert(office@ == self@[k as int]);
                lemma_active_windows_len(office@.times, *time);
            }
            match office.times.filter_time(time) {
                Some(reduced) => {
                    let copy = Office {
                        names: office.names.clone(),
                        phones: office.phones.clone(),
                        times: reduced,
                        comments: office.comments.clone(),
                    };
                    proof {
                        assert(copy@ == restrict_office(self@[k as int], *time));
                    }
                    data.push(copy);
                },
                None => {
                },
            }
            proof {
                let longer = self@.subrange(0, k + 1);
                assert(longer.drop_last() =~= prefix);
                assert(longer.last() == self@[k as int]);
                assert(views_of(data@) =~= filter_active(longer, *time));
            }
            k = k + 1;
        }
        proof {
            assert(self@.subrange(0, self@.len() as int) =~= self@);
        }
        Offices { data }
    }
}

} // verus!

