//! Keybindings and settings files of the editor front end: parsing key names, validating and
//! merging settings, and the shortcut a binding stands for.
use vstd::prelude::*;

use crate::command::{name_lt, str_lt};
use crate::text::str_eq;
use crate::text_edit::eq_mod;
use crate::trusted::{
    ascii_lowercase, ascii_uppercase, str_to_ascii_lowercase, str_to_ascii_uppercase, str_trim, trimmed,
};

verus! {

/// The keys a binding can name.
#[derive(Debug, Clone, Copy, PartialEq, Eq, Structural)]
pub enum KeyName {
    A,
    B,
    C,
    D,
    E,
    F,
    G,
    H,
    I,
    J,
    K,
    L,
    M,
    N,
    O,
    P,
    Q,
    R,
    S,
    T,
    U,
    V,
    W,
    X,
    Y,
    Z,
    ArrowUp,
    ArrowDown,
    ArrowLeft,
    ArrowRight,
}

/// The key that an upper-cased key name stands for.
pub open spec fn key_named(u: Seq<char>) -> Option<KeyName> {
    if u == "A"@ {
        Some(KeyName::A)
    } else if u == "B"@ {
        Some(KeyName::B)
    } else if u == "C"@ {
        Some(KeyName::C)
    } else if u == "D"@ {
        Some(KeyName::D)
    } else if u == "E"@ {
        Some(KeyName::E)
    } else if u == "F"@ {
        Some(KeyName::F)
    } else if u == "G"@ {
        Some(KeyName::G)
    } else if u == "H"@ {
        Some(KeyName::H)
    } else if u == "I"@ {
        Some(KeyName::I)
    } else if u == "J"@ {
        Some(KeyName::J)
    } else if u == "K"@ {
        Some(KeyName::K)
    } else if u == "L"@ {
        Some(KeyName::L)
    } else if u == "M"@ {
        Some(KeyName::M)
    } else if u == "N"@ {
        Some(KeyName::N)
    } else if u == "O"@ {
        Some(KeyName::O)
    } else if u == "P"@ {
        Some(KeyName::P)
    } else if u == "Q"@ {
        Some(KeyName::Q)
    } else if u == "R"@ {
        Some(KeyName::R)
    } else if u == "S"@ {
        Some(KeyName::S)
    } else if u == "T"@ {
        Some(KeyName::T)
    } else if u == "U"@ {
        Some(KeyName::U)
    } else if u == "V"@ {
        Some(KeyName::V)
    } else if u == "W"@ {
        Some(KeyName::W)
    } else if u == "X"@ {
        Some(KeyName::X)
    } else if u == "Y"@ {
        Some(KeyName::Y)
    } else if u == "Z"@ {
        Some(KeyName::Z)
    } else if u == "ARROWUP"@ || u == "UP"@ {
        Some(KeyName::ArrowUp)
    } else if u == "ARROWDOWN"@ || u == "DOWN"@ {
        Some(KeyName::ArrowDown)
    } else if u == "ARROWLEFT"@ || u == "LEFT"@ {
        Some(KeyName::ArrowLeft)
    } else if u == "ARROWRIGHT"@ || u == "RIGHT"@ {
        Some(KeyName::ArrowRight)
    } else {
        None
    }
}

/// The key that `key` names, compared without ASCII case.
pub fn parse_key(key: &str) -> (r: Option<KeyName>)
    ensures
        r == key_named(ascii_uppercase(key@)),
{
    let u = str_to_ascii_uppercase(key);
    let s = u.as_str();
    if str_eq(s, "A") {
        Some(KeyName::A)
    } else if str_eq(s, "B") {
        Some(KeyName::B)
    } else if str_eq(s, "C") {
        Some(KeyName::C)
    } else if str_eq(s, "D") {
        Some(KeyName::D)
    } else if str_eq(s, "E") {
        Some(KeyName::E)
    } else if str_eq(s, "F") {
        Some(KeyName::F)
    } else if str_eq(s, "G") {
        Some(KeyName::G)
    } else if str_eq(s, "H") {
        Some(KeyName::H)
    } else if str_eq(s, "I") {
        Some(KeyName::I)
    } else if str_eq(s, "J") {
        Some(KeyName::J)
    } else if str_eq(s, "K") {
        Some(KeyName::K)
    } else if str_eq(s, "L") {
        Some(KeyName::L)
    } else if str_eq(s, "M") {
        Some(KeyName::M)
    } else if str_eq(s, "N") {
        Some(KeyName::N)
    } else if str_eq(s, "O") {
        Some(KeyName::O)
    } else if str_eq(s, "P") {
        Some(KeyName::P)
    } else if str_eq(s, "Q") {
        Some(KeyName::Q)
    } else if str_eq(s, "R") {
        Some(KeyName::R)
    } else if str_eq(s, "S") {
        Some(KeyName::S)
    } else if str_eq(s, "T") {
        Some(KeyName::T)
    } else if str_eq(s, "U") {
        Some(KeyName::U)
    } else if str_eq(s, "V") {
        Some(KeyName::V)
    } else if str_eq(s, "W") {
        Some(KeyName::W)
    } else if str_eq(s, "X") {
        Some(KeyName::X)
    } else if str_eq(s, "Y") {
        Some(KeyName::Y)
    } else if str_eq(s, "Z") {
        Some(KeyName::Z)
    } else if str_eq(s, "ARROWUP") || str_eq(s, "UP") {
        Some(KeyName::ArrowUp)
    } else if str_eq(s, "ARROWDOWN") || str_eq(s, "DOWN") {
        Some(KeyName::ArrowDown)
    } else if str_eq(s, "ARROWLEFT") || str_eq(s, "LEFT") {
        Some(KeyName::ArrowLeft)
    } else if str_eq(s, "ARROWRIGHT") || str_eq(s, "RIGHT") {
        Some(KeyName::ArrowRight)
    } else {
        None
    }
}

/// A keybinding as a settings file states it.
#[derive(Debug)]
pub struct KeyBindingConfig {
    pub command: String,
    pub key: String,
    pub modifiers: Vec<String>,
}

pub ghost struct BindingModel {
    pub command: Seq<char>,
    pub key: Seq<char>,
    pub modifiers: Seq<Seq<char>>,
}

impl View for KeyBindingConfig {
    type V = BindingModel;

    open spec fn view(&self) -> BindingModel {
        BindingModel {
            command: self.command@,
            key: self.key@,
            modifiers: self.modifiers@.map_values(|m: String| m@),
        }
    }
}

pub open spec fn binding_models(s: Seq<KeyBindingConfig>) -> Seq<BindingModel> {
    s.map_values(|b: KeyBindingConfig| b@)
}

fn clone_strings(v: &Vec<String>) -> (r: Vec<String>)
    ensures
        r@.map_values(|m: String| m@) == v@.map_values(|m: String| m@),
{
    let mut out: Vec<String> = Vec::new();
    let mut i: usize = 0;
    while i < v.len()
        invariant
            i <= v@.len(),
            out@.map_values(|m: String| m@) == v@.take(i as int).map_values(|m: String| m@),
        decreases v@.len() - i,
    {
        let ghost before = out@;
        let c = v[i].clone();
        out.push(c);
        proof {
            assert(c@ == v@[i as int]@);
            assert(out@ == before.push(c));
            assert(v@.take(i + 1) == v@.take(i as int).push(v@[i as int]));
            assert(out@.map_values(|m: String| m@) == before.map_values(|m: String| m@).push(c@));
            assert(v@.take(i + 1).map_values(|m: String| m@) == v@.take(i as int).map_values(|m: String| m@).push(v@[i as int]@));
        }
        i = i + 1;
    }
    proof {
        assert(v@.take(v@.len() as int) == v@);
    }
    out
}

impl Clone for KeyBindingConfig {
    fn clone(&self) -> (r: Self)
        ensures
            r@ == self@,
    {
        KeyBindingConfig {
            command: self.command.clone(),
            key: self.key.clone(),
            modifiers: clone_strings(&self.modifiers),
        }
    }
}

fn clone_bindings(v: &Vec<KeyBindingConfig>) -> (r: Vec<KeyBindingConfig>)
    ensures
        binding_models(r@) == binding_models(v@),
{
    let mut out: Vec<KeyBindingConfig> = Vec::new();
    let mut i: usize = 0;
    while i < v.len()
        invariant
            i <= v@.len(),
            binding_models(out@) == binding_models(v@.take(i as int)),
        decreases v@.len() - i,
    {
        let ghost before = out@;
        let c = v[i].clone();
        out.push(c);
        proof {
            assert(out@ == before.push(c));
            assert(v@.take(i + 1) == v@.take(i as int).push(v@[i as int]));
            assert(binding_models(out@) == binding_models(before).push(c@));
            assert(binding_models(v@.take(i + 1)) == binding_models(v@.take(i as int)).push(v@[i as int]@));
        }
        i = i + 1;
    }
    proof {
        assert(v@.take(v@.len() as int) == v@);
    }
    out
}

/// A settings file: each setting it leaves out is `None`. The sidebar width is carried as the
/// bit pattern of its `f32` value.
#[derive(Debug, Clone)]
pub struct ProjectSettingsFile {
    pub show_hidden_files: Option<bool>,
    pub sidebar_width_bits: Option<u32>,
    pub keybindings: Vec<KeyBindingConfig>,
}

impl Default for ProjectSettingsFile {
    /// A settings file that states nothing.
    fn default() -> (r: Self)
        ensures
            r.show_hidden_files is None,
            r.sidebar_width_bits is None,
            r.keybindings@.len() == 0,
    {
        ProjectSettingsFile { show_hidden_files: None, sidebar_width_bits: None, keybindings: Vec::new() }
    }
}

impl Default for KeyBindingConfig {
    /// A binding with an empty command, an empty key and no modifiers.
    fn default() -> (r: Self)
        ensures
            r.command@ == Seq::<char>::empty(),
            r.key@ == Seq::<char>::empty(),
            r.modifiers@.len() == 0,
    {
        KeyBindingConfig { command: String::new(), key: String::new(), modifiers: Vec::new() }
    }
}

/// The settings in force; the sidebar width is carried as the bit pattern of its `f32` value.
#[derive(Debug, Clone)]
pub struct ResolvedSettings {
    pub show_hidden_files: bool,
    pub sidebar_width_bits: u32,
    pub keybindings: Vec<KeyBindingConfig>,
}

/// The bit pattern of the default sidebar width, 220.0.
pub const DEFAULT_SIDEBAR_WIDTH_BITS: u32 = 0x435c_0000u32;

impl Default for ResolvedSettings {
    fn default() -> (r: Self)
        ensures
            !r.show_hidden_files,
            r.sidebar_width_bits == DEFAULT_SIDEBAR_WIDTH_BITS,
            r.keybindings@.len() == 0,
    {
        ResolvedSettings {
            show_hidden_files: false,
            sidebar_width_bits: DEFAULT_SIDEBAR_WIDTH_BITS,
            keybindings: Vec::new(),
        }
    }
}

/// Whether the `f32` with bit pattern `bits` is finite: its exponent bits are not all ones.
pub open spec fn finite_bits(bits: u32) -> bool {
    (bits >> 23u32) & 0xffu32 != 0xffu32
}

/// The modifiers a binding may name, compared in lower case.
pub open spec fn known_modifier(m: Seq<char>) -> bool {
    m == "command"@ || m == "ctrl"@ || m == "shift"@ || m == "alt"@ || m == "option"@
}

/// The complaint about the first modifier of `ms` that is not known, if any.
pub open spec fn modifiers_error(ms: Seq<Seq<char>>) -> Option<Seq<char>>
    decreases ms.len(),
{
    if ms.len() == 0 {
        None
    } else if !known_modifier(ascii_lowercase(ms[0])) {
        Some("unsupported keybinding modifier: "@ + ms[0])
    } else {
        modifiers_error(ms.drop_first())
    }
}

/// The complaint about a binding, if any.
pub open spec fn binding_error(b: BindingModel) -> Option<Seq<char>> {
    if trimmed(b.command).len() == 0 {
        Some("keybinding command must not be empty"@)
    } else if key_named(ascii_uppercase(b.key)) is None {
        Some("unsupported keybinding key: "@ + b.key)
    } else {
        modifiers_error(b.modifiers)
    }
}

/// The complaint about the first binding of `bs` that has one, if any.
pub open spec fn bindings_error(bs: Seq<BindingModel>) -> Option<Seq<char>>
    decreases bs.len(),
{
    if bs.len() == 0 {
        None
    } else {
        match binding_error(bs[0]) {
            Some(e) => Some(e),
            None => bindings_error(bs.drop_first()),
        }
    }
}

/// The complaint about a settings file, if any.
pub open spec fn settings_error(width_bits: Option<u32>, bs: Seq<BindingModel>) -> Option<Seq<char>> {
    match width_bits {
        Some(bits) if !finite_bits(bits) => Some("sidebar_width must be a finite number"@),
        _ => bindings_error(bs),
    }
}

fn is_finite_bits(bits: u32) -> (r: bool)
    ensures
        r == finite_bits(bits),
{
    (bits >> 23u32) & 0xffu32 != 0xffu32
}

fn modifier_known(m: &str) -> (r: bool)
    ensures
        r == known_modifier(ascii_lowercase(m@)),
{
    let lower = str_to_ascii_lowercase(m);
    let l = lower.as_str();
    str_eq(l, "command") || str_eq(l, "ctrl") || str_eq(l, "shift") || str_eq(l, "alt") || str_eq(l, "option")
}

fn check_binding(b: &KeyBindingConfig) -> (r: Result<(), String>)
    ensures
        match r {
            Ok(()) => binding_error(b@) is None,
            Err(e) => binding_error(b@) == Some(e@),
        },
{
    if str_trim(b.command.as_str()).is_empty() {
        return Err("keybinding command must not be empty".to_owned());
    }
    if parse_key(b.key.as_str()).is_none() {
        let mut msg = "unsupported keybinding key: ".to_owned();
        msg.append(b.key.as_str());
        return Err(msg);
    }
    let ghost ms = b@.modifiers;
    let mut i: usize = 0;
    proof {
        assert(ms.skip(0) == ms);
    }
    while i < b.modifiers.len()
        invariant
            i <= ms.len(),
            ms == b.modifiers@.map_values(|m: String| m@),
            modifiers_error(ms) == modifiers_error(ms.skip(i as int)),
            trimmed(b@.command).len() != 0,
            key_named(ascii_uppercase(b@.key)) is Some,
        decreases ms.len() - i,
    {
        let m = b.modifiers[i].as_str();
        proof {
            assert(ms.skip(i as int)[0] == m@);
            assert(ms.skip(i as int).drop_first() == ms.skip(i + 1));
        }
        if !modifier_known(m) {
            let mut msg = "unsupported keybinding modifier: ".to_owned();
            msg.append(m);
            return Err(msg);
        }
        i = i + 1;
    }
    Ok(())
}

/// Checks a settings file: a sidebar width, when given, is finite; every keybinding names a
/// command, a known key and known modifiers. The first complaint is handed back.
pub fn validate_settings_file(settings: &ProjectSettingsFile) -> (r: Result<(), String>)
    ensures
        match r {
            Ok(()) => settings_error(settings.sidebar_width_bits, binding_models(settings.keybindings@)) is None,
            Err(e) => settings_error(settings.sidebar_width_bits, binding_models(settings.keybindings@)) == Some(e@),
        },
{
    match settings.sidebar_width_bits {
        Some(bits) => {
            if !is_finite_bits(bits) {
                return Err("sidebar_width must be a finite number".to_owned());
            }
        },
        None => {},
    }
    let ghost bs = binding_models(settings.keybindings@);
    let mut i: usize = 0;
    proof {
        assert(bs.skip(0) == bs);
    }
    while i < settings.keybindings.len()
        invariant
            i <= bs.len(),
            bs == binding_models(settings.keybindings@),
            bindings_error(bs) == bindings_error(bs.skip(i as int)),
            settings_error(settings.sidebar_width_bits, bs) == bindings_error(bs),
        decreases bs.len() - i,
    {
        proof {
            assert(bs.skip(i as int)[0] == settings.keybindings@[i as int]@);
            assert(bs.skip(i as int).drop_first() == bs.skip(i + 1));
        }
        match check_binding(&settings.keybindings[i]) {
            Err(e) => return Err(e),
            Ok(()) => {},
        }
        i = i + 1;
    }
    Ok(())
}

/// The settings in force: each setting of the project file wins over the user's, and the
/// keybindings of both apply, the user's first.
pub fn resolve_settings(user: &ProjectSettingsFile, project: &ProjectSettingsFile) -> (r: ResolvedSettings)
    ensures
        r.show_hidden_files == match project.show_hidden_files {
            Some(b) => b,
            None => match user.show_hidden_files {
                Some(b) => b,
                None => false,
            },
        },
        r.sidebar_width_bits == match project.sidebar_width_bits {
            Some(b) => b,
            None => match user.sidebar_width_bits {
                Some(b) => b,
                None => DEFAULT_SIDEBAR_WIDTH_BITS,
            },
        },
        binding_models(r.keybindings@) == binding_models(user.keybindings@) + binding_models(project.keybindings@),
{
    let mut keybindings = clone_bindings(&user.keybindings);
    let ghost before = keybindings@;
    let mut extra = clone_bindings(&project.keybindings);
    let ghost added = extra@;
    keybindings.append(&mut extra);
    proof {
        assert(keybindings@ == before + added);
        assert(binding_models(before + added) == binding_models(before) + binding_models(added));
    }
    let show_hidden_files = match project.show_hidden_files {
        Some(b) => b,
        None => match user.show_hidden_files {
            Some(b) => b,
            None => false,
        },
    };
    let sidebar_width_bits = match project.sidebar_width_bits {
        Some(b) => b,
        None => match user.sidebar_width_bits {
            Some(b) => b,
            None => DEFAULT_SIDEBAR_WIDTH_BITS,
        },
    };
    ResolvedSettings { show_hidden_files, sidebar_width_bits, keybindings }
}

/// Stable insertion of `x` after every string that does not come after it.
pub open spec fn insert_str(s: Seq<Seq<char>>, x: Seq<char>) -> Seq<Seq<char>>
    decreases s.len(),
{
    if s.len() == 0 || !name_lt(x, s.last()) {
        s.push(x)
    } else {
        insert_str(s.drop_last(), x).push(s.last())
    }
}

/// The strings of `s` in the order `String` sorts them.
pub open spec fn sort_strs(s: Seq<Seq<char>>) -> Seq<Seq<char>>
    decreases s.len(),
{
    if s.len() == 0 {
        s
    } else {
        insert_str(sort_strs(s.drop_last()), s.last())
    }
}

/// The strings of `s` with `sep` between each two.
pub open spec fn join(s: Seq<Seq<char>>, sep: Seq<char>) -> Seq<char>
    decreases s.len(),
{
    if s.len() == 0 {
        Seq::empty()
    } else if s.len() == 1 {
        s[0]
    } else {
        join(s.drop_last(), sep) + sep + s.last()
    }
}

/// The shortcut a binding stands for: its modifiers in lower case, sorted and joined by `+`,
/// then `::` and its key in upper case.
pub open spec fn signature(b: BindingModel) -> Seq<char> {
    join(sort_strs(b.modifiers.map_values(|m: Seq<char>| ascii_lowercase(m))), "+"@) + "::"@
        + ascii_uppercase(b.key)
}

/// The shortcut `binding` stands for; bindings with the same signature take the same keys.
pub fn keybinding_signature(binding: &KeyBindingConfig) -> (r: String)
    ensures
        r@ == signature(binding@),
{
    let ghost lowered = binding@.modifiers.map_values(|m: Seq<char>| ascii_lowercase(m));
    let mut sorted: Vec<String> = Vec::new();
    let mut i: usize = 0;
    while i < binding.modifiers.len()
        invariant
            i <= binding.modifiers@.len(),
            lowered == binding@.modifiers.map_values(|m: Seq<char>| ascii_lowercase(m)),
            sorted@.map_values(|m: String| m@) == sort_strs(lowered.take(i as int)),
        decreases binding.modifiers@.len() - i,
    {
        let x = str_to_ascii_lowercase(binding.modifiers[i].as_str());
        proof {
            assert(x@ == lowered[i as int]);
        }
        let ghost before = sorted@.map_values(|m: String| m@);
        let mut j: usize = sorted.len();
        proof {
            assert(before.take(j as int) == before);
            assert(before.skip(j as int) == Seq::<Seq<char>>::empty());
            assert(insert_str(before, x@) + Seq::<Seq<char>>::empty() == insert_str(before, x@));
        }
        while j > 0 && str_lt(x.as_str(), sorted[j - 1].as_str())
            invariant
                j <= sorted@.len(),
                before == sorted@.map_values(|m: String| m@),
                insert_str(before, x@) == insert_str(before.take(j as int), x@) + before.skip(j as int),
            decreases j,
        {
            proof {
                let tj = before.take(j as int);
                assert(tj.drop_last() == before.take(j - 1));
                assert(tj.last() == before[j - 1]);
                vstd::utf8::encode_utf8_decode_utf8(x@);
                vstd::utf8::encode_utf8_decode_utf8(sorted@[j - 1]@);
                assert(insert_str(before.take(j - 1), x@).push(before[j - 1]) + before.skip(j as int)
                    == insert_str(before.take(j - 1), x@) + before.skip(j - 1));
            }
            j = j - 1;
        }
        proof {
            let tj = before.take(j as int);
            if j > 0 {
                assert(tj.last() == before[j - 1]);
                vstd::utf8::encode_utf8_decode_utf8(x@);
                vstd::utf8::encode_utf8_decode_utf8(sorted@[j - 1]@);
            }
            assert(insert_str(tj, x@) == tj.push(x@));
        }
        let ghost xv = x@;
        sorted.insert(j, x);
        proof {
            assert(sorted@.map_values(|m: String| m@) == before.take(j as int).push(xv) + before.skip(j as int));
            assert(lowered.take(i + 1).drop_last() == lowered.take(i as int));
            assert(lowered.take(i + 1).last() == xv);
        }
        i = i + 1;
    }
    proof {
        assert(lowered.take(binding.modifiers@.len() as int) == lowered);
    }
    let ghost ss = sorted@.map_values(|m: String| m@);
    let mut out = String::new();
    let mut k: usize = 0;
    while k < sorted.len()
        invariant
            k <= ss.len(),
            ss == sorted@.map_values(|m: String| m@),
            out@ == join(ss.take(k as int), "+"@),
        decreases ss.len() - k,
    {
        if k > 0 {
            out.append("+");
        }
        out.append(sorted[k].as_str());
        proof {
            assert(ss.take(k + 1).drop_last() == ss.take(k as int));
            assert(ss.take(k + 1).last() == ss[k as int]);
            if k == 0 {
                assert(ss.take(0) == Seq::<Seq<char>>::empty());
                assert(Seq::<char>::empty() + ss[0] == ss[0]);
            }
        }
        k = k + 1;
    }
    proof {
        assert(ss.take(ss.len() as int) == ss);
    }
    out.append("::");
    let upper = str_to_ascii_uppercase(binding.key.as_str());
    out.append(upper.as_str());
    out
}

/// The keybindings in force: a binding replaces, in place, an earlier one with the same
/// signature.
pub open spec fn merged_bindings(bs: Seq<BindingModel>) -> Seq<BindingModel>
    decreases bs.len(),
{
    if bs.len() == 0 {
        Seq::empty()
    } else {
        let m = merged_bindings(bs.drop_last());
        let x = bs.last();
        if exists|j: int| 0 <= j < m.len() && signature(#[trigger] m[j]) == signature(x) {
            let j = choose|j: int| 0 <= j < m.len() && signature(#[trigger] m[j]) == signature(x);
            m.update(j, x)
        } else {
            m.push(x)
        }
    }
}

/// The keybindings in force hold one binding per signature; every binding given has its
/// signature among them; and each of them is the last binding given with its signature.
#[verifier::spinoff_prover]
#[verifier::rlimit(40)]
pub proof fn law_merged_bindings(bs: Seq<BindingModel>)
    ensures
        ({
            let m = merged_bindings(bs);
            &&& forall|i: int, j: int| 0 <= i < j < m.len() ==> signature(#[trigger] m[i]) != signature(#[trigger] m[j])
            &&& forall|k: int| 0 <= k < bs.len() ==> exists|i: int| 0 <= i < m.len() && signature(#[trigger] m[i]) == signature(#[trigger] bs[k])
            &&& forall|i: int| 0 <= i < m.len() ==> exists|k: int| 0 <= k < bs.len() && #[trigger] m[i] == #[trigger] bs[k]
                && forall|k2: int| k < k2 < bs.len() ==> signature(#[trigger] bs[k2]) != signature(m[i])
        }),
    decreases bs.len(),
{
    if bs.len() > 0 {
        let p = bs.drop_last();
        law_merged_bindings(p);
        let m = merged_bindings(p);
        let x = bs.last();
        let n = bs.len() - 1;
        assert(bs[n] == x);
        assert forall|k: int| 0 <= k < n implies #[trigger] bs[k] == p[k] by {}
        if exists|j: int| 0 <= j < m.len() && signature(#[trigger] m[j]) == signature(x) {
            let j = choose|j: int| 0 <= j < m.len() && signature(#[trigger] m[j]) == signature(x);
            let r = m.update(j, x);
            assert(merged_bindings(bs) == r);
            assert forall|a: int, b: int| 0 <= a < b < r.len() implies signature(#[trigger] r[a]) != signature(#[trigger] r[b]) by {
                assert(signature(r[a]) == signature(m[a]));
                assert(signature(r[b]) == signature(m[b]));
            }
            assert forall|k: int| 0 <= k < bs.len() implies exists|i: int| 0 <= i < r.len() && signature(#[trigger] r[i]) == signature(#[trigger] bs[k]) by {
                if k == n {
                    assert(signature(r[j]) == signature(bs[k]));
                } else {
                    assert(bs[k] == p[k]);
                    let i = choose|i: int| 0 <= i < m.len() && signature(#[trigger] m[i]) == signature(#[trigger] p[k]);
                    assert(signature(r[i]) == signature(m[i]));
                }
            }
            assert forall|i: int| 0 <= i < r.len() implies exists|k: int| 0 <= k < bs.len() && #[trigger] r[i] == #[trigger] bs[k]
                && forall|k2: int| k < k2 < bs.len() ==> signature(#[trigger] bs[k2]) != signature(r[i]) by {
                if i == j {
                    assert(r[i] == bs[n]);
                } else {
                    let k = choose|k: int| 0 <= k < p.len() && #[trigger] m[i] == #[trigger] p[k]
                        && forall|k2: int| k < k2 < p.len() ==> signature(#[trigger] p[k2]) != signature(m[i]);
                    assert(r[i] == bs[k]);
                    assert forall|k2: int| k < k2 < bs.len() implies signature(#[trigger] bs[k2]) != signature(r[i]) by {
                        if k2 == n {
                            if i < j {
                                assert(signature(m[i]) != signature(m[j]));
                            } else {
                                assert(signature(m[j]) != signature(m[i]));
                            }
                        } else {
                            assert(bs[k2] == p[k2]);
                        }
                    }
                }
            }
        } else {
            let r = m.push(x);
            assert(merged_bindings(bs) == r);
            assert forall|a: int, b: int| 0 <= a < b < r.len() implies signature(#[trigger] r[a]) != signature(#[trigger] r[b]) by {
                if b == m.len() {
                    assert(r[b] == x);
                    assert(r[a] == m[a]);
                }
            }
            assert forall|k: int| 0 <= k < bs.len() implies exists|i: int| 0 <= i < r.len() && signature(#[trigger] r[i]) == signature(#[trigger] bs[k]) by {
                if k == n {
                    assert(r[m.len() as int] == bs[k]);
                } else {
                    assert(bs[k] == p[k]);
                    let i = choose|i: int| 0 <= i < m.len() && signature(#[trigger] m[i]) == signature(#[trigger] p[k]);
                    assert(r[i] == m[i]);
                }
            }
            assert forall|i: int| 0 <= i < r.len() implies exists|k: int| 0 <= k < bs.len() && #[trigger] r[i] == #[trigger] bs[k]
                && forall|k2: int| k < k2 < bs.len() ==> signature(#[trigger] bs[k2]) != signature(r[i]) by {
                if i == m.len() {
                    assert(r[i] == bs[n]);
                } else {
                    assert(r[i] == m[i]);
                    let k = choose|k: int| 0 <= k < p.len() && #[trigger] m[i] == #[trigger] p[k]
                        && forall|k2: int| k < k2 < p.len() ==> signature(#[trigger] p[k2]) != signature(m[i]);
                    assert(r[i] == bs[k]);
                    assert forall|k2: int| k < k2 < bs.len() implies signature(#[trigger] bs[k2]) != signature(r[i]) by {
                        if k2 == n {
                            assert(signature(m[i]) != signature(x));
                        } else {
                            assert(bs[k2] == p[k2]);
                        }
                    }
                }
            }
        }
    }
}

/// The keybindings in force under `settings`: one per signature, the last one given winning.
pub fn active_keybindings(settings: &ResolvedSettings) -> (r: Vec<KeyBindingConfig>)
    ensures
        binding_models(r@) == merged_bindings(binding_models(settings.keybindings@)),
{
    let ghost bs = binding_models(settings.keybindings@);
    let mut merged: Vec<KeyBindingConfig> = Vec::new();
    let mut sigs: Vec<String> = Vec::new();
    let mut i: usize = 0;
    while i < settings.keybindings.len()
        invariant
            i <= bs.len(),
            bs == binding_models(settings.keybindings@),
            binding_models(merged@) == merged_bindings(bs.take(i as int)),
            sigs@.len() == merged@.len(),
            forall|k: int| 0 <= k < sigs@.len() ==> #[trigger] sigs@[k]@ == signature(merged@[k]@),
            forall|a: int, b: int| 0 <= a < b < sigs@.len() ==> sigs@[a]@ != sigs@[b]@,
        decreases bs.len() - i,
    {
        let binding = settings.keybindings[i].clone();
        let sig = keybinding_signature(&binding);
        let ghost m = binding_models(merged@);
        proof {
            assert(bs.take(i + 1).drop_last() == bs.take(i as int));
            assert(bs.take(i + 1).last() == binding@);
        }
        let mut j: usize = 0;
        let mut found: Option<usize> = None;
        while j < sigs.len()
            invariant
                j <= sigs@.len(),
                sigs@.len() == merged@.len(),
                found is None ==> forall|k: int| 0 <= k < j ==> sigs@[k]@ != sig@,
                found matches Some(f) ==> f < sigs@.len() && sigs@[f as int]@ == sig@,
            decreases sigs@.len() - j,
        {
            if found.is_none() && str_eq(sigs[j].as_str(), sig.as_str()) {
                found = Some(j);
            }
            j = j + 1;
        }
        match found {
            Some(f) => {
                proof {
                    assert(m[f as int] == merged@[f as int]@);
                    assert(signature(m[f as int]) == signature(binding@));
                    let c = choose|c: int| 0 <= c < m.len() && signature(#[trigger] m[c]) == signature(binding@);
                    assert(sigs@[c]@ == signature(merged@[c]@));
                    assert(c == f);
                }
                merged.set(f, binding);
                proof {
                    assert(binding_models(merged@) == m.update(f as int, binding@));
                }
            },
            None => {
                proof {
                    assert forall|c: int| 0 <= c < m.len() implies signature(#[trigger] m[c]) != signature(binding@) by {
                        assert(sigs@[c]@ == signature(merged@[c]@));
                    }
                }
                merged.push(binding);
                sigs.push(sig);
                proof {
                    assert(binding_models(merged@) == m.push(binding@));
                }
            },
        }
        i = i + 1;
    }
    proof {
        assert(bs.take(bs.len() as int) == bs);
    }
    merged
}

/// Which modifier groups a binding asks for: command (or ctrl), shift, and alt (or option),
/// each named without ASCII case.
pub open spec fn wants(ms: Seq<Seq<char>>, names: Seq<Seq<char>>) -> bool {
    exists|i: int, j: int| 0 <= i < ms.len() && 0 <= j < names.len()
        && #[trigger] ascii_lowercase(ms[i]) == #[trigger] ascii_lowercase(names[j])
}

fn wants_any(ms: &Vec<String>, first: &str, second: &str) -> (r: bool)
    ensures
        r == wants(ms@.map_values(|m: String| m@), seq![first@, second@]),
{
    let ghost names = seq![first@, second@];
    let ghost mm = ms@.map_values(|m: String| m@);
    let mut i: usize = 0;
    while i < ms.len()
        invariant
            i <= ms@.len(),
            names == seq![first@, second@],
            mm == ms@.map_values(|m: String| m@),
            forall|a: int, b: int| 0 <= a < i && 0 <= b < names.len()
                ==> ascii_lowercase(mm[a]) != ascii_lowercase(names[b]),
        decreases ms@.len() - i,
    {
        if eq_mod(ms[i].as_str(), first) || eq_mod(ms[i].as_str(), second) {
            proof {
                assert(mm[i as int] == ms@[i as int]@);
                if ascii_lowercase(mm[i as int]) == ascii_lowercase(names[0]) {
                    assert(wants(mm, names));
                } else {
                    assert(ascii_lowercase(mm[i as int]) == ascii_lowercase(names[1]));
                    assert(wants(mm, names));
                }
            }
            return true;
        }
        proof {
            assert(mm[i as int] == ms@[i as int]@);
        }
        i = i + 1;
    }
    false
}

/// Whether `binding` asks for the command key, shift, and alt.
pub fn wanted_modifiers(binding: &KeyBindingConfig) -> (r: (bool, bool, bool))
    ensures
        r.0 == wants(binding@.modifiers, seq!["command"@, "ctrl"@]),
        r.1 == wants(binding@.modifiers, seq!["shift"@, "shift"@]),
        r.2 == wants(binding@.modifiers, seq!["alt"@, "option"@]),
{
    let command = wants_any(&binding.modifiers, "command", "ctrl");
    let shift = wants_any(&binding.modifiers, "shift", "shift");
    let alt = wants_any(&binding.modifiers, "alt", "option");
    (command, shift, alt)
}

} // verus!
