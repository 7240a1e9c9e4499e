//! Colour schemes: colours stored as `0xRRGGBB` integers, and the set of
//! named schemes with the current one.

use vstd::prelude::*;
use crate::markers::ColorKey;

verus! {

/// A colour scheme as loaded: one `0xRRGGBB` colour per key.
#[derive(Clone, Copy, Debug)]
pub struct ColorschemeData {
    pub background: u32,
    pub text: u32,
    pub walls: u32,
    pub p1: u32,
    pub p2: u32,
    pub p3: u32,
    pub p4: u32,
}

impl ColorschemeData {
    /// The colour of a key.
    pub fn get_by_key(&self, key: &ColorKey) -> (r: u32)
        ensures
            r == match *key {
                ColorKey::Background => self.background,
                ColorKey::Text => self.text,
                ColorKey::Walls => self.walls,
                ColorKey::P1 => self.p1,
                ColorKey::P2 => self.p2,
                ColorKey::P3 => self.p3,
                ColorKey::P4 => self.p4,
            },
    {
        match key {
            ColorKey::Background => self.background,
            ColorKey::Text => self.text,
            ColorKey::Walls => self.walls,
            ColorKey::P1 => self.p1,
            ColorKey::P2 => self.p2,
            ColorKey::P3 => self.p3,
            ColorKey::P4 => self.p4,
        }
    }
}

/// The red, green and blue bytes of an `0xRRGGBB` colour.
pub fn hex_channels(hex: u32) -> (r: (u8, u8, u8))
    ensures
        r.0 == (hex / 0x10000) % 0x100,
        r.1 == (hex / 0x100) % 0x100,
        r.2 == hex % 0x100,
{
    let red = ((hex / 0x10000) % 0x100) as u8;
    let green = ((hex / 0x100) % 0x100) as u8;
    let blue = (hex % 0x100) as u8;
    (red, green, blue)
}

/// Named colour schemes, by position, and the position of the current one.
/// The schemes themselves stay with the caller, in the same order.
pub struct ColorschemeSet {
    pub schemes: Vec<String>,
    pub current: usize,
}

impl ColorschemeSet {
    pub open spec fn current_index(&self) -> int {
        self.current as int
    }

    /// The current position names a scheme.
    pub open spec fn wf(&self) -> bool {
        self.current < self.schemes@.len()
    }

    /// No schemes yet; add one before asking for the current one.
    pub fn new() -> (s: ColorschemeSet)
        ensures
            s.schemes@.len() == 0,
            s.current_index() == 0,
    {
        ColorschemeSet { schemes: Vec::new(), current: 0 }
    }

    /// Adds a scheme after the others.
    pub fn add_scheme(&mut self, name: String)
        ensures
            final(self).schemes@ == old(self).schemes@.push(name),
            final(self).current_index() == old(self).current_index(),
            old(self).wf() ==> final(self).wf(),
    {
        self.schemes.push(name);
    }

    /// Adds a scheme after the others and makes it current.
    pub fn add_current_scheme(&mut self, name: String)
        ensures
            final(self).schemes@ == old(self).schemes@.push(name),
            final(self).current_index() == old(self).schemes@.len(),
            final(self).wf(),
    {
        self.schemes.push(name);
        self.current = self.schemes.len() - 1;
    }

    /// The position of the first scheme with this name.
    pub fn get_scheme(&self, name: &str) -> (r: Option<usize>)
        ensures
            r matches Some(i) ==> i < self.schemes@.len() && self.schemes@[i as int]@ == name@
                && forall|j: int| 0 <= j < i ==> (#[trigger] self.schemes@[j])@ != name@,
            r is None ==> forall|j: int| 0 <= j < self.schemes@.len() ==> (#[trigger] self.schemes@[j])@ != name@,
    {
        let target = name.to_owned();
        let mut k: usize = 0;
        while k < self.schemes.len()
            invariant
                k <= self.schemes@.len(),
                target@ == name@,
                forall|j: int| 0 <= j < k ==> (#[trigger] self.schemes@[j])@ != name@,
            decreases self.schemes@.len() - k,
        {
            if self.schemes[k].eq(&target) {
                return Some(k);
            }
            k = k + 1;
        }
        None
    }

    /// The position of the current scheme.
    pub fn get_current(&self) -> (r: usize)
        ensures
            r == self.current_index(),
    {
        self.current
    }

    /// Makes the first scheme with this name current; `false`, changing
    /// nothing, when there is none.
    pub fn set_current(&mut self, name: &str) -> (found: bool)
        ensures
            final(self).schemes@ == old(self).schemes@,
            found == exists|j: int| 0 <= j < old(self).schemes@.len() && (#[trigger] old(self).schemes@[j])@ == name@,
            found ==> final(self).wf() && final(self).schemes@[final(self).current_index()]@ == name@
                && forall|j: int| 0 <= j < final(self).current_index() ==> (#[trigger] old(self).schemes@[j])@ != name@,
            !found ==> final(self).current_index() == old(self).current_index(),
    {
        match self.get_scheme(name) {
            Some(i) => {
                self.current = i;
                true
            },
            None => false,
        }
    }

    /// Makes the next scheme current, wrapping around after the last.
    pub fn cycle_schemes(&mut self)
        requires
            old(self).wf(),
        ensures
            final(self).wf(),
            final(self).schemes@ == old(self).schemes@,
            final(self).current_index() == (old(self).current_index() + 1) % (old(self).schemes@.len() as int),
    {
        let n = self.schemes.len();
        proof {
            if self.current + 1 < n {
                vstd::arithmetic::div_mod::lemma_small_mod((self.current + 1) as nat, n as nat);
            } else {
                vstd::arithmetic::div_mod::lemma_mod_self_0(n as int);
            }
        }
        self.current = self.current + 1;
        if self.current == n {
            self.current = 0;
        }
    }
}

} // verus!
