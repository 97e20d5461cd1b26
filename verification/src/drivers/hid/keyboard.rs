//! Keyboard state kept from HID boot-protocol reports: which keys are held,
//! and which characters a report types.
use vstd::prelude::*;

verus! {

/// The character that scan code `code` types, when it types one.
pub open spec fn scan_char(code: u8) -> Option<char> {
    if 4 <= code <= 29 {
        Some(((code - 4) + 0x41) as char)
    } else if 30 <= code <= 38 {
        Some(((code - 30) + 0x31) as char)
    } else if code == 39 {
        Some('0')
    } else if code == 40 {
        Some('\n')
    } else if code == 43 {
        Some('\t')
    } else if code == 44 {
        Some(' ')
    } else {
        None
    }
}

/// A USB HID keyboard usage code.
#[derive(Debug, PartialEq, Eq, Structural, Copy, Clone)]
pub struct Scancode(pub u8);

impl Scancode {
    pub fn new(value: u8) -> (code: Self)
        ensures
            code.0 == value,
    {
        Scancode(value)
    }

    /// The character this key types: letters (upper case), digits, enter,
    /// tab and space.
    pub fn to_char(&self) -> (c: Option<char>)
        ensures
            c == scan_char(self.0),
    {
        let code = self.0;
        if 4 <= code && code <= 29 {
            Some(((code - 4) + 0x41u8) as char)
        } else if 30 <= code && code <= 38 {
            Some(((code - 30) + 0x31u8) as char)
        } else if code == 39 {
            Some('0')
        } else if code == 40 {
            Some('\n')
        } else if code == 43 {
            Some('\t')
        } else if code == 44 {
            Some(' ')
        } else {
            None
        }
    }

    /// The code that reports more keys pressed than the report can hold.
    pub fn is_error(&self) -> (e: bool)
        ensures
            e == (self.0 == 1),
    {
        self.0 == 1
    }

    /// Every code but 0 (no key).
    pub fn is_valid(&self) -> (v: bool)
        ensures
            v == (self.0 != 0),
    {
        self.0 != 0
    }
}

pub open spec fn codes_of(s: Seq<Scancode>) -> Seq<u8> {
    s.map_values(|c: Scancode| c.0)
}

proof fn lemma_codes_push(s: Seq<Scancode>, x: Scancode)
    ensures
        codes_of(s.push(x)) == codes_of(s).push(x.0),
{
    assert(codes_of(s.push(x)) =~= codes_of(s).push(x.0));
}

proof fn lemma_codes_update(s: Seq<Scancode>, i: int, x: Scancode)
    requires
        0 <= i < s.len(),
    ensures
        codes_of(s.update(i, x)) == codes_of(s).update(i, x.0),
{
    assert(codes_of(s.update(i, x)) =~= codes_of(s).update(i, x.0));
}

/// A boot-protocol keyboard report: modifiers and up to six keys.
#[derive(Debug)]
pub struct KeyboardReport {
    modifiers: u8,
    keycodes: Vec<Scancode>,
}

impl KeyboardReport {
    /// The key codes, in report order.
    pub closed spec fn codes(&self) -> Seq<u8> {
        codes_of(self.keycodes@)
    }

    pub closed spec fn spec_modifiers(&self) -> u8 {
        self.modifiers
    }

    /// Reads a report: modifiers at byte 1, key codes at bytes 3 to 8.
    pub fn new(data: &[u8]) -> (report: Self)
        requires
            data@.len() >= 9,
        ensures
            report.spec_modifiers() == data@[1],
            report.codes() == data@.subrange(3, 9),
    {
        let mut keycodes: Vec<Scancode> = Vec::new();
        let mut i: usize = 3;
        while i < 9
            invariant
                3 <= i <= 9,
                data@.len() >= 9,
                codes_of(keycodes@) == data@.subrange(3, i as int),
            decreases 9 - i,
        {
            let ghost prev = keycodes@;
            let code = Scancode::new(data[i]);
            keycodes.push(code);
            proof {
                lemma_codes_push(prev, code);
            }
            assert(codes_of(keycodes@) =~= data@.subrange(3, i as int + 1));
            i = i + 1;
        }
        Self { modifiers: data[1], keycodes }
    }

    pub fn keycodes(&self) -> (codes: &[Scancode])
        ensures
            codes_of(codes@) == self.codes(),
    {
        self.keycodes.as_slice()
    }

    /// Whether the report says that more keys were pressed than it holds.
    pub fn has_error(&self) -> (e: bool)
        ensures
            e == self.codes().contains(1u8),
    {
        let mut i: usize = 0;
        while i < self.keycodes.len()
            invariant
                i <= self.keycodes@.len(),
                forall|j: int| 0 <= j < i ==> self.codes()[j] != 1u8,
            decreases self.keycodes@.len() - i,
        {
            if self.keycodes[i].is_error() {
                assert(self.codes()[i as int] == 1u8);
                return true;
            }
            i = i + 1;
        }
        false
    }
}

/// Slots no longer held by `report` become free.
pub open spec fn release_keys(held: Seq<u8>, report: Seq<u8>) -> Seq<u8> {
    held.map_values(|c: u8| if c != 0 && !report.contains(c) { 0u8 } else { c })
}

/// Index of the first free slot, or the length when none is free.
pub open spec fn first_free(held: Seq<u8>) -> int
    decreases held.len(),
{
    if held.len() == 0 {
        0
    } else if held[0] == 0 {
        0
    } else {
        1 + first_free(held.drop_first())
    }
}

/// `code` goes to the first free slot, when there is one.
pub open spec fn hold_key(held: Seq<u8>, code: u8) -> Seq<u8> {
    if first_free(held) < held.len() {
        held.update(first_free(held), code)
    } else {
        held
    }
}

pub open spec fn typed(code: u8) -> Seq<char> {
    match scan_char(code) {
        Some(c) => seq![c],
        None => Seq::empty(),
    }
}

/// The keys of `report` that are newly pressed, taken in order: each one
/// is held and types its character.
pub open spec fn press_keys(held: Seq<u8>, report: Seq<u8>) -> (Seq<u8>, Seq<char>)
    decreases report.len(),
{
    if report.len() == 0 {
        (held, Seq::empty())
    } else {
        let (h, out) = press_keys(held, report.drop_last());
        let code = report.last();
        if code != 0 && !h.contains(code) {
            (hold_key(h, code), out + typed(code))
        } else {
            (h, out)
        }
    }
}

/// Keyboard state: the keys held down, in six slots (0 is a free slot).
pub struct Keyboard {
    current_keycodes: Vec<Scancode>,
}

impl Keyboard {
    /// The slots.
    pub closed spec fn held(&self) -> Seq<u8> {
        codes_of(self.current_keycodes@)
    }

    /// Six slots, and no key held in two of them.
    pub open spec fn wf(&self) -> bool {
        &&& self.held().len() == 6
        &&& distinct_keys(self.held())
    }

    pub fn new() -> (keyboard: Self)
        ensures
            keyboard.held() == seq![0u8, 0u8, 0u8, 0u8, 0u8, 0u8],
            keyboard.wf(),
    {
        let mut current_keycodes: Vec<Scancode> = Vec::new();
        let mut i: usize = 0;
        while i < 6
            invariant
                i <= 6,
                codes_of(current_keycodes@) == Seq::new(i as nat, |j: int| 0u8),
            decreases 6 - i,
        {
            let ghost prev = current_keycodes@;
            let code = Scancode::new(0);
            current_keycodes.push(code);
            proof {
                lemma_codes_push(prev, code);
            }
            assert(codes_of(current_keycodes@) =~= Seq::new(i as nat + 1, |j: int| 0u8));
            i = i + 1;
        }
        let keyboard = Self { current_keycodes };
        assert(keyboard.held() =~= seq![0u8, 0u8, 0u8, 0u8, 0u8, 0u8]);
        keyboard
    }

    fn contains(&self, code: Scancode) -> (found: bool)
        ensures
            found == self.held().contains(code.0),
    {
        let mut i: usize = 0;
        while i < self.current_keycodes.len()
            invariant
                i <= self.current_keycodes@.len(),
                forall|j: int| 0 <= j < i ==> self.held()[j] != code.0,
            decreases self.current_keycodes@.len() - i,
        {
            if self.current_keycodes[i].0 == code.0 {
                assert(self.held()[i as int] == code.0);
                return true;
            }
            i = i + 1;
        }
        false
    }

    /// Holds `code` in the first free slot and gives the character it
    /// types.
    fn key_pressed(&mut self, code: Scancode, typed_chars: &mut Vec<char>)
        ensures
            final(self).held() == hold_key(old(self).held(), code.0),
            final(typed_chars)@ == old(typed_chars)@ + typed(code.0),
    {
        let ghost h = self.held();
        proof {
            if h.len() == 0 {
                lemma_first_free(h, 0);
            }
        }
        let mut i: usize = 0;
        while i < self.current_keycodes.len()
            invariant_except_break
                i <= self.current_keycodes@.len(),
                h == self.held(),
                forall|j: int| 0 <= j < i ==> h[j] != 0,
                i == h.len() ==> self.held() == hold_key(h, code.0),
            ensures
                self.held() == hold_key(h, code.0),
            decreases self.current_keycodes@.len() - i,
        {
            if !self.current_keycodes[i].is_valid() {
                proof {
                    lemma_first_free(h, i as int);
                }
                let ghost prev = self.current_keycodes@;
                self.current_keycodes.set(i, code);
                proof {
                    lemma_codes_update(prev, i as int, code);
                }
                assert(self.held() == hold_key(h, code.0));
                break;
            }
            i = i + 1;
            proof {
                if i == h.len() {
                    lemma_first_free(h, i as int);
                }
            }
        }
        if let Some(c) = code.to_char() {
            typed_chars.push(c);
        }
        assert(typed_chars@ =~= old(typed_chars)@ + typed(code.0));
    }

    /// Takes in a report: keys no longer in it are released, and keys that
    /// are new in it are held and type their characters, which are
    /// returned. A report that says too many keys are pressed changes
    /// nothing and gives `None`.
    pub fn handle_report(&mut self, report: KeyboardReport) -> (typed_chars: Option<Vec<char>>)
        ensures
            report.codes().contains(1u8) ==> typed_chars is None && final(self).held() == old(
                self,
            ).held(),
            !report.codes().contains(1u8) ==> ({
                let (h, out) = press_keys(release_keys(old(self).held(), report.codes()), report.codes());
                &&& typed_chars matches Some(t) && t@ == out
                &&& final(self).held() == h
            }),
            old(self).wf() && report.codes().len() <= 6 ==> final(self).wf(),
            old(self).wf() && report.codes().len() <= 6 && !report.codes().contains(1u8) ==> forall|c: u8|
                c != 0 ==> (final(self).held().contains(c) <==> report.codes().contains(c)),
            old(self).wf() && report.codes().len() <= 6 && !report.codes().contains(1u8) ==> (typed_chars matches Some(
                t,
            ) && t@ == report_output(old(self).held(), report.codes())),
    {
        if report.has_error() {
            return None;
        }
        let ghost r = report.codes();
        let ghost h0 = self.held();
        let codes = report.keycodes();
        let mut i: usize = 0;
        while i < self.current_keycodes.len()
            invariant
                i <= self.current_keycodes@.len() == h0.len(),
                codes_of(codes@) == r,
                forall|j: int| 0 <= j < i ==> #[trigger] self.held()[j] == release_keys(h0, r)[j],
                forall|j: int| i <= j < h0.len() ==> #[trigger] self.held()[j] == h0[j],
            decreases self.current_keycodes@.len() - i,
        {
            let keycode = self.current_keycodes[i];
            let ghost before = self.held();
            assert(before[i as int] == keycode.0);
            if keycode.is_valid() {
                let mut present = false;
                let mut k: usize = 0;
                while k < codes.len()
                    invariant
                        k <= codes@.len(),
                        codes_of(codes@) == r,
                        present == r.take(k as int).contains(keycode.0),
                    decreases codes@.len() - k,
                {
                    if codes[k].0 == keycode.0 {
                        present = true;
                    }
                    proof {
                        assert(r[k as int] == codes@[k as int].0);
                        assert(r.take(k as int + 1) =~= r.take(k as int).push(r[k as int]));
                        if r.take(k as int).contains(keycode.0) {
                            let w = choose|w: int| 0 <= w < k && r.take(k as int)[w] == keycode.0;
                            assert(r.take(k as int + 1)[w] == keycode.0);
                        }
                        if codes[k as int].0 == keycode.0 {
                            assert(r.take(k as int + 1)[k as int] == keycode.0);
                        }
                    }
                    k = k + 1;
                }
                assert(r.take(r.len() as int) =~= r);
                if !present {
                    let ghost prev = self.current_keycodes@;
                    let zero = Scancode::new(0);
                    self.current_keycodes.set(i, zero);
                    proof {
                        lemma_codes_update(prev, i as int, zero);
                    }
                }
            }
            proof {
                assert(h0[i as int] == keycode.0);
                assert(release_keys(h0, r)[i as int] == self.held()[i as int]);
                assert(forall|j: int| 0 <= j < h0.len() && j != i ==> #[trigger] self.held()[j] == before[j]);
            }
            i = i + 1;
        }
        assert(self.held() =~= release_keys(h0, r));
        let mut typed_chars: Vec<char> = Vec::new();
        let ghost released = self.held();
        let mut k: usize = 0;
        while k < codes.len()
            invariant
                k <= codes@.len(),
                codes_of(codes@) == r,
                (self.held(), typed_chars@) == press_keys(released, r.take(k as int)),
            decreases codes@.len() - k,
        {
            let code = codes[k];
            proof {
                assert(r.take(k as int + 1).drop_last() =~= r.take(k as int));
            }
            if code.is_valid() && !self.contains(code) {
                self.key_pressed(code, &mut typed_chars);
            }
            k = k + 1;
        }
        assert(r.take(r.len() as int) =~= r);
        proof {
            if h0.len() == 6 && distinct_keys(h0) && r.len() <= 6 {
                law_held_keys_follow_report(h0, r);
                law_report_output(h0, r);
            }
        }
        Some(typed_chars)
    }
}

/// The nonzero codes of `held` are pairwise distinct.
pub open spec fn distinct_keys(held: Seq<u8>) -> bool {
    forall|i: int, j: int|
        0 <= i < held.len() && 0 <= j < held.len() && i != j && held[i] != 0 ==> held[i] != held[j]
}

proof fn lemma_first_free_bounds(h: Seq<u8>)
    ensures
        0 <= first_free(h) <= h.len(),
        first_free(h) < h.len() ==> h[first_free(h)] == 0,
        forall|j: int| 0 <= j < first_free(h) ==> h[j] != 0,
    decreases h.len(),
{
    if h.len() > 0 && h[0] != 0 {
        lemma_first_free_bounds(h.drop_first());
        assert forall|j: int| 0 <= j < first_free(h) implies h[j] != 0 by {
            if j > 0 {
                assert(h[j] == h.drop_first()[j - 1]);
            }
        }
    }
}

/// Distinct held keys that all lie in `report` but are not `code`, which
/// is in it too, leave a slot free.
proof fn lemma_free_slot(h: Seq<u8>, report: Seq<u8>, code: u8)
    requires
        distinct_keys(h),
        report.len() <= h.len(),
        report.contains(code),
        forall|j: int| 0 <= j < h.len() && h[j] != 0 ==> report.contains(#[trigger] h[j]) && h[j] != code,
    ensures
        first_free(h) < h.len(),
{
    broadcast use vstd::set::group_set_axioms, vstd::seq_lib::group_seq_properties;
    lemma_first_free_bounds(h);
    if first_free(h) == h.len() {
        assert(h.no_duplicates());
        h.unique_seq_to_set();
        report.lemma_cardinality_of_set();
        let rest = report.to_set().remove(code);
        assert forall|c: u8| h.to_set().contains(c) implies rest.contains(c) by {
            let j = choose|j: int| 0 <= j < h.len() && h[j] == c;
            assert(h[j] != 0);
        }
        vstd::set_lib::lemma_len_subset(h.to_set(), rest);
    }
}

/// What pressing the first `k` keys of `report` keeps true of the slots.
proof fn lemma_press_prefix(h0: Seq<u8>, report: Seq<u8>, k: int)
    requires
        0 <= k <= report.len(),
        report.len() <= h0.len(),
        distinct_keys(h0),
        forall|j: int| 0 <= j < h0.len() && h0[j] != 0 ==> report.contains(#[trigger] h0[j]),
    ensures
        ({
            let h = press_keys(h0, report.take(k)).0;
            &&& h.len() == h0.len()
            &&& distinct_keys(h)
            &&& forall|j: int| 0 <= j < h.len() && h[j] != 0 ==> report.contains(#[trigger] h[j])
            &&& forall|i: int| 0 <= i < k && report[i] != 0 ==> h.contains(#[trigger] report[i])
            &&& forall|j: int|
                0 <= j < h.len() && h[j] != 0 ==> h0.contains(#[trigger] h[j]) || report.take(k).contains(h[j])
            &&& forall|j: int| 0 <= j < h0.len() && h0[j] != 0 ==> #[trigger] h[j] == h0[j]
        }),
    decreases k,
{
    if k == 0 {
        assert(report.take(0) =~= Seq::<u8>::empty());
    } else {
        lemma_press_prefix(h0, report, k - 1);
        let t = report.take(k);
        assert(t.drop_last() =~= report.take(k - 1));
        let h = press_keys(h0, report.take(k - 1)).0;
        let code = report[k - 1];
        assert(t.last() == code);
        assert(report.contains(code)) by {
            assert(report[k - 1] == code);
        }
        if code != 0 && !h.contains(code) {
            assert forall|j: int| 0 <= j < h.len() && h[j] != 0 implies report.contains(#[trigger] h[j])
                && h[j] != code by {
                if h[j] == code {
                    assert(h.contains(code));
                }
            }
            lemma_free_slot(h, report, code);
            lemma_first_free_bounds(h);
            let f = first_free(h);
            let h2 = h.update(f, code);
            assert(press_keys(h0, t).0 == h2);
            assert forall|i: int, j: int|
                0 <= i < h2.len() && 0 <= j < h2.len() && i != j && h2[i] != 0 implies h2[i] != h2[j] by {
                if i == f {
                    if h[j] == code {
                        assert(h.contains(code));
                    }
                } else if j == f {
                    if h[i] == code {
                        assert(h.contains(code));
                    }
                }
            }
            assert forall|i: int| 0 <= i < k && report[i] != 0 implies h2.contains(#[trigger] report[i]) by {
                if i < k - 1 {
                    let j = choose|j: int| 0 <= j < h.len() && h[j] == report[i];
                    assert(h2[j] == report[i]);
                } else {
                    assert(h2[f] == code);
                }
            }
            assert forall|j: int| 0 <= j < h2.len() && h2[j] != 0 implies h0.contains(#[trigger] h2[j])
                || report.take(k).contains(h2[j]) by {
                if j == f {
                    assert(report.take(k)[k - 1] == code);
                } else {
                    assert(h2[j] == h[j]);
                    if report.take(k - 1).contains(h[j]) {
                        let w = choose|w: int| 0 <= w < k - 1 && #[trigger] report.take(k - 1)[w] == h[j];
                        assert(report.take(k)[w] == h[j]);
                    }
                }
            }
        } else {
            assert(press_keys(h0, t).0 == h);
            assert forall|i: int| 0 <= i < k && report[i] != 0 implies h.contains(#[trigger] report[i]) by {
                if i == k - 1 {
                    assert(h.contains(code));
                }
            }
            assert forall|j: int| 0 <= j < h.len() && h[j] != 0 implies h0.contains(#[trigger] h[j])
                || report.take(k).contains(h[j]) by {
                if report.take(k - 1).contains(h[j]) {
                    let w = choose|w: int| 0 <= w < k - 1 && #[trigger] report.take(k - 1)[w] == h[j];
                    assert(report.take(k)[w] == h[j]);
                }
            }
        }
    }
}

/// The characters that `report` types when the keys `held` were held
/// before it: those of its nonzero codes that were not held and do not
/// occur earlier in the report, in report order.
pub open spec fn report_output(held: Seq<u8>, report: Seq<u8>) -> Seq<char>
    decreases report.len(),
{
    if report.len() == 0 {
        Seq::empty()
    } else {
        let c = report.last();
        report_output(held, report.drop_last()) + if c != 0 && !held.contains(c) && !report.drop_last().contains(c) {
            typed(c)
        } else {
            Seq::empty()
        }
    }
}

proof fn lemma_output_prefix(held: Seq<u8>, report: Seq<u8>, k: int)
    requires
        distinct_keys(held),
        report.len() <= held.len(),
        0 <= k <= report.len(),
    ensures
        press_keys(release_keys(held, report), report.take(k)).1 == report_output(held, report.take(k)),
    decreases k,
{
    let h0 = release_keys(held, report);
    if k == 0 {
        assert(report.take(0) =~= Seq::<u8>::empty());
    } else {
        lemma_output_prefix(held, report, k - 1);
        assert forall|j: int| 0 <= j < h0.len() && h0[j] != 0 implies report.contains(#[trigger] h0[j]) by {
            assert(h0[j] == held[j]);
        }
        lemma_press_prefix(h0, report, k - 1);
        let t = report.take(k);
        assert(t.drop_last() =~= report.take(k - 1));
        let code = report[k - 1];
        assert(t.last() == code);
        let h = press_keys(h0, report.take(k - 1)).0;
        if code != 0 {
            assert(report.contains(code)) by {
                assert(report[k - 1] == code);
            }
            if held.contains(code) {
                let j = choose|j: int| 0 <= j < held.len() && held[j] == code;
                assert(h0[j] == code);
                assert(h[j] == code);
            }
            if h0.contains(code) {
                let j = choose|j: int| 0 <= j < h0.len() && h0[j] == code;
                assert(held[j] == code);
            }
            if report.take(k - 1).contains(code) {
                let w = choose|w: int| 0 <= w < k - 1 && #[trigger] report.take(k - 1)[w] == code;
                assert(report[w] == code);
                assert(h.contains(report[w]));
            }
            if h.contains(code) {
                let j = choose|j: int| 0 <= j < h.len() && h[j] == code;
                assert(h0.contains(h[j]) || report.take(k - 1).contains(h[j]));
            }
        }
        let out = press_keys(h0, report.take(k - 1)).1;
        let cond = code != 0 && !h.contains(code);
        assert(cond == (code != 0 && !held.contains(code) && !report.take(k - 1).contains(code)));
        assert(press_keys(h0, t).1 == if cond { out + typed(code) } else { out });
        assert(report_output(held, t) == report_output(held, report.take(k - 1)) + if cond {
            typed(code)
        } else {
            Seq::<char>::empty()
        });
        if !cond {
            assert(out + Seq::<char>::empty() =~= out);
        }
    }
}

/// A report types, in report order, the character of each of its nonzero
/// codes that was not held before it and does not occur earlier in it; this
/// holds whenever the keys held before were distinct and the report names
/// no more keys than there are slots.
pub proof fn law_report_output(held: Seq<u8>, report: Seq<u8>)
    requires
        distinct_keys(held),
        report.len() <= held.len(),
    ensures
        press_keys(release_keys(held, report), report).1 == report_output(held, report),
{
    lemma_output_prefix(held, report, report.len() as int);
    assert(report.take(report.len() as int) =~= report);
}

/// After a report, the keys held are exactly the nonzero keys of the
/// report, and they stay distinct: this holds whenever the keys held before
/// were distinct and the report names no more keys than there are slots.
pub proof fn law_held_keys_follow_report(held: Seq<u8>, report: Seq<u8>)
    requires
        distinct_keys(held),
        report.len() <= held.len(),
    ensures
        ({
            let h = press_keys(release_keys(held, report), report).0;
            &&& h.len() == held.len()
            &&& distinct_keys(h)
            &&& forall|c: u8| c != 0 ==> (h.contains(c) <==> report.contains(c))
        }),
{
    let h0 = release_keys(held, report);
    assert forall|j: int| 0 <= j < h0.len() && h0[j] != 0 implies report.contains(#[trigger] h0[j]) by {
        assert(h0[j] == held[j]);
    }
    lemma_press_prefix(h0, report, report.len() as int);
    assert(report.take(report.len() as int) =~= report);
    let h = press_keys(h0, report).0;
    assert forall|c: u8| c != 0 implies (h.contains(c) <==> report.contains(c)) by {
        if h.contains(c) {
            let j = choose|j: int| 0 <= j < h.len() && h[j] == c;
            assert(report.contains(h[j]));
        }
        if report.contains(c) {
            let i = choose|i: int| 0 <= i < report.len() && report[i] == c;
            assert(h.contains(report[i]));
        }
    }
}

proof fn lemma_first_free(h: Seq<u8>, i: int)
    requires
        0 <= i <= h.len(),
        forall|j: int| 0 <= j < i ==> h[j] != 0,
        i < h.len() ==> h[i] == 0,
    ensures
        first_free(h) == i,
    decreases i,
{
    if i > 0 {
        lemma_first_free(h.drop_first(), i - 1);
    }
}

} // verus!
