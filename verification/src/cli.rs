//! Command-line options: each option's description and value, lookup by flag and by
//! name, the help text, and the reading of an argument list.
use crate::decoder::ArchSize;
use crate::text::{lowercase, to_lowercase, trim, trim_chars, same, lemma_split_len, lemma_split_pieces, lemma_split_free, lemma_split_after, str_eq, chars_of, dedent, dedented, fill, filled, push_chars, push_str, split, split_chars, string_of};
use vstd::prelude::*;

verus! {

// ---------------------------------------------------------------------------
// Values and options
// ---------------------------------------------------------------------------

/// The value of an option: text, or a switch.
#[derive(Debug)]
pub enum ArgValue {
    Text(String),
    Bool(bool),
}

/// The abstract value of an `ArgValue`.
pub ghost enum ArgValueView {
    Text(Seq<char>),
    Bool(bool),
}

impl View for ArgValue {
    type V = ArgValueView;

    open spec fn view(&self) -> ArgValueView {
        match self {
            ArgValue::Text(t) => ArgValueView::Text(t@),
            ArgValue::Bool(b) => ArgValueView::Bool(*b),
        }
    }
}

impl Clone for ArgValue {
    fn clone(&self) -> (r: Self)
        ensures
            r@ == self@,
    {
        match self {
            ArgValue::Text(t) => ArgValue::Text(t.clone()),
            ArgValue::Bool(b) => ArgValue::Bool(*b),
        }
    }
}

/// A value as written in the help text.
pub open spec fn value_text(v: ArgValueView) -> Seq<char> {
    match v {
        ArgValueView::Text(t) => t,
        ArgValueView::Bool(b) => if b {
            "true"@
        } else {
            "false"@
        },
    }
}

impl ArgValue {
    /// The value as written in the help text.
    pub fn to_string(&self) -> (r: String)
        ensures
            r@ == value_text(self@),
    {
        match self {
            ArgValue::Text(t) => t.clone(),
            ArgValue::Bool(b) => if *b {
                String::from_str("true")
            } else {
                String::from_str("false")
            },
        }
    }
}

/// A command-line option: its name, its descriptions, its default, the flags that
/// set it and the value given to it, if any.
#[derive(Debug)]
pub struct Argument {
    pub name: String,
    pub description: String,
    pub help: String,
    pub default: ArgValue,
    pub flags: Vec<String>,
    pub value: Option<ArgValue>,
}

/// The abstract value of an `Argument`.
pub ghost struct ArgumentView {
    pub name: Seq<char>,
    pub description: Seq<char>,
    pub help: Seq<char>,
    pub default: ArgValueView,
    pub flags: Seq<Seq<char>>,
    pub value: Option<ArgValueView>,
}

/// The texts of a sequence of strings.
pub open spec fn texts(v: Seq<String>) -> Seq<Seq<char>> {
    v.map_values(|s: String| s@)
}

impl View for Argument {
    type V = ArgumentView;

    open spec fn view(&self) -> ArgumentView {
        ArgumentView {
            name: self.name@,
            description: self.description@,
            help: self.help@,
            default: self.default@,
            flags: texts(self.flags@),
            value: match self.value {
                Some(v) => Some(v@),
                None => None,
            },
        }
    }
}

impl ArgumentView {
    /// The value in force: the one given, or else the default.
    pub open spec fn current(self) -> ArgValueView {
        match self.value {
            Some(v) => v,
            None => self.default,
        }
    }
}

/// What the column of flags is padded to in the help text.
pub const FLAG_COLUMN: usize = 20;

/// What starts the continuation lines of an option's entry in the help text.
pub open spec fn entry_indent() -> Seq<char> {
    seq!['\t'] + Seq::new(21, |i: int| ' ')
}

/// The flags, separated by a comma and a space.
pub open spec fn joined(flags: Seq<Seq<char>>) -> Seq<char>
    decreases flags.len(),
{
    if flags.len() == 0 {
        Seq::empty()
    } else if flags.len() == 1 {
        flags[0]
    } else {
        joined(flags.drop_last()) + ", "@ + flags.last()
    }
}

/// `s` followed by spaces up to `width` characters.
pub open spec fn padded(s: Seq<char>, width: nat) -> Seq<char> {
    if s.len() < width {
        s + Seq::new((width - s.len()) as nat, |i: int| ' ')
    } else {
        s
    }
}

/// An option's entry in the help text: the flags, the description wrapped at 80
/// columns, and the default.
pub open spec fn entry_text(a: ArgumentView) -> Seq<char> {
    seq!['\t'] + padded(joined(a.flags), FLAG_COLUMN as nat) + seq![' '] + filled(
        a.description,
        80,
        entry_indent(),
    ) + seq!['\n'] + entry_indent() + "Default: "@ + value_text(a.default) + seq!['\n']
}

fn push_spaces(out: &mut Vec<char>, n: usize)
    ensures
        final(out)@ == old(out)@ + Seq::new(n as nat, |i: int| ' '),
{
    let mut i: usize = 0;
    while i < n
        invariant
            i <= n,
            out@ == old(out)@ + Seq::new(i as nat, |k: int| ' '),
        decreases n - i,
    {
        out.push(' ');
        assert(Seq::new((i + 1) as nat, |k: int| ' ') =~= Seq::new(i as nat, |k: int| ' ').push(' '));
        i = i + 1;
    }
}

fn indent_chars() -> (r: Vec<char>)
    ensures
        r@ == entry_indent(),
{
    let mut v: Vec<char> = Vec::new();
    v.push('\t');
    push_spaces(&mut v, 21);
    assert(v@ =~= entry_indent());
    v
}

impl Argument {
    /// No value was given: the default is in force.
    pub fn is_default(&self) -> (r: bool)
        ensures
            r == (self.value is None),
    {
        self.value.is_none()
    }

    /// The value in force.
    pub fn get(&self) -> (r: &ArgValue)
        ensures
            r@ == self@.current(),
    {
        match &self.value {
            Some(v) => v,
            None => &self.default,
        }
    }

    /// The text in force, for an option that takes text.
    pub fn get_str(&self) -> (r: &String)
        requires
            self@.current() is Text,
        ensures
            r@ == self@.current()->Text_0,
    {
        match self.get() {
            ArgValue::Text(x) => x,
            ArgValue::Bool(_) => {
                assert(false);
                &self.name
            },
        }
    }

    /// The number in force, for an option that takes a decimal number.
    pub fn get_usize(&self) -> (r: usize)
        requires
            self@.current() is Text,
            crate::text::parse_unsigned(self@.current()->Text_0, 10, usize::MAX as nat) is Some,
        ensures
            r == crate::text::parse_unsigned(self@.current()->Text_0, 10, usize::MAX as nat).unwrap(),
    {
        let t = chars_of(self.get_str().as_str());
        match crate::text::parse_unsigned_of(t.as_slice(), 10, usize::MAX as u64) {
            Some(v) => v as usize,
            None => 0,
        }
    }

    /// The switch in force, for an option that is a switch.
    pub fn get_bool(&self) -> (r: bool)
        requires
            self@.current() is Bool,
        ensures
            r == self@.current()->Bool_0,
    {
        match self.get() {
            ArgValue::Bool(x) => *x,
            ArgValue::Text(_) => false,
        }
    }

    /// An option with no value given yet.
    pub fn new(name: &str, description: &str, help: &str, default: ArgValue, flags: Vec<&str>) -> (r: Self)
        ensures
            r@ == (ArgumentView {
                name: name@,
                description: description@,
                help: help@,
                default: default@,
                flags: flags@.map_values(|f: &str| f@),
                value: None,
            }),
    {
        let mut fs: Vec<String> = Vec::new();
        let mut i: usize = 0;
        while i < flags.len()
            invariant
                i <= flags@.len(),
                fs@.len() == i,
                texts(fs@) == flags@.take(i as int).map_values(|f: &str| f@),
            decreases flags.len() - i,
        {
            let ghost before = fs@;
            let s = String::from_str(flags[i]);
            assert(s@ == flags@[i as int]@);
            fs.push(s);
            assert forall|k: int| 0 <= k < i + 1 implies #[trigger] texts(fs@)[k] == flags@.take(
                i + 1,
            ).map_values(|f: &str| f@)[k] by {
                if k < i {
                    assert(fs@[k] == before[k]);
                    assert(texts(before)[k] == flags@.take(i as int).map_values(|f: &str| f@)[k]);
                }
            }
            assert(texts(fs@) =~= flags@.take(i + 1).map_values(|f: &str| f@));
            i = i + 1;
        }
        assert(flags@.take(flags@.len() as int) == flags@);
        Argument {
            name: String::from_str(name),
            description: String::from_str(description),
            help: String::from_str(help),
            default,
            flags: fs,
            value: None,
        }
    }

    /// The option's entry in the help text (see `entry_text`).
    pub fn to_string(&self) -> (r: String)
        ensures
            r@ == entry_text(self@),
    {
        let mut out: Vec<char> = Vec::new();
        out.push('\t');
        let mut fl: Vec<char> = Vec::new();
        let mut i: usize = 0;
        while i < self.flags.len()
            invariant
                i <= self.flags@.len(),
                fl@ == joined(texts(self.flags@).take(i as int)),
            decreases self.flags.len() - i,
        {
            let ghost fs = texts(self.flags@);
            assert(fs.take(i + 1).drop_last() == fs.take(i as int));
            assert(fs.take(i + 1).last() == self.flags@[i as int]@);
            if i > 0 {
                push_str(&mut fl, ", ");
            } else {
                assert(fs.take(1) =~= seq![fs[0]]);
            }
            push_str(&mut fl, self.flags[i].as_str());
            i = i + 1;
        }
        assert(texts(self.flags@).take(self.flags@.len() as int) == texts(self.flags@));
        let fl_len = fl.len();
        push_chars(&mut out, &fl);
        if fl_len < FLAG_COLUMN {
            push_spaces(&mut out, FLAG_COLUMN - fl_len);
        }
        out.push(' ');
        let indent = indent_chars();
        let indent_s = string_of(indent.as_slice());
        let d = fill(self.description.as_str(), 80, indent_s.as_str());
        push_str(&mut out, d.as_str());
        out.push('\n');
        push_chars(&mut out, &indent);
        push_str(&mut out, "Default: ");
        let dv = self.default.to_string();
        push_str(&mut out, dv.as_str());
        out.push('\n');
        assert(out@ =~= entry_text(self@));
        string_of(out.as_slice())
    }
}

// ---------------------------------------------------------------------------
// The table of options
// ---------------------------------------------------------------------------

/// The abstract values of a sequence of options.
pub open spec fn arg_views(v: Seq<Argument>) -> Seq<ArgumentView> {
    v.map_values(|a: Argument| a@)
}

/// The flags of each option.
pub open spec fn flag_lists(v: Seq<ArgumentView>) -> Seq<Seq<Seq<char>>> {
    v.map_values(|a: ArgumentView| a.flags)
}

/// The name of each option.
pub open spec fn name_list(v: Seq<ArgumentView>) -> Seq<Seq<char>> {
    v.map_values(|a: ArgumentView| a.name)
}

/// The last option that has `flag` among its flags.
pub open spec fn flag_owner(flags: Seq<Seq<Seq<char>>>, flag: Seq<char>) -> Option<int>
    decreases flags.len(),
{
    if flags.len() == 0 {
        None
    } else if flags.last().contains(flag) {
        Some(flags.len() - 1)
    } else {
        flag_owner(flags.drop_last(), flag)
    }
}

/// The last option with the name `name`.
pub open spec fn name_owner(names: Seq<Seq<char>>, name: Seq<char>) -> Option<int>
    decreases names.len(),
{
    if names.len() == 0 {
        None
    } else if names.last() == name {
        Some(names.len() - 1)
    } else {
        name_owner(names.drop_last(), name)
    }
}

/// The number of flags in all.
pub open spec fn flag_count(flags: Seq<Seq<Seq<char>>>) -> nat
    decreases flags.len(),
{
    if flags.len() == 0 {
        0
    } else {
        flag_count(flags.drop_last()) + flags.last().len()
    }
}

/// Where no two options share a name, each option's name leads to that option.
pub proof fn lemma_name_owner_unique(names: Seq<Seq<char>>, i: int)
    requires
        0 <= i < names.len(),
        forall|a: int, b: int| 0 <= a < b < names.len() ==> names[a] != names[b],
    ensures
        name_owner(names, names[i]) == Some(i),
    decreases names.len(),
{
    if i < names.len() - 1 {
        assert(names.last() != names[i]);
        assert(names.drop_last()[i] == names[i]);
        lemma_name_owner_unique(names.drop_last(), i);
    }
}

/// Where no flag belongs to two options, each flag of an option leads to that option.
pub proof fn lemma_flag_owner_unique(flags: Seq<Seq<Seq<char>>>, i: int, f: Seq<char>)
    requires
        0 <= i < flags.len(),
        flags[i].contains(f),
        forall|a: int, b: int, g: Seq<char>|
            0 <= a < b < flags.len() && #[trigger] flags[a].contains(g) ==> !#[trigger] flags[b].contains(g),
    ensures
        flag_owner(flags, f) == Some(i),
    decreases flags.len(),
{
    if i < flags.len() - 1 {
        assert(!flags[flags.len() - 1].contains(f));
        assert(flags.drop_last()[i] == flags[i]);
        lemma_flag_owner_unique(flags.drop_last(), i, f);
    }
}

/// The value of the last pair whose key is `key`.
pub open spec fn lookup(pairs: Seq<(String, usize)>, key: Seq<char>) -> Option<int>
    decreases pairs.len(),
{
    if pairs.len() == 0 {
        None
    } else if pairs.last().0@ == key {
        Some(pairs.last().1 as int)
    } else {
        lookup(pairs.drop_last(), key)
    }
}

/// The entries of the options in the help text, in order.
pub open spec fn entries_text(args: Seq<ArgumentView>) -> Seq<char>
    decreases args.len(),
{
    if args.len() == 0 {
        Seq::empty()
    } else {
        entries_text(args.drop_last()) + entry_text(args.last())
    }
}

/// An owner found is one of the options.
pub proof fn lemma_flag_owner_bound(flags: Seq<Seq<Seq<char>>>, flag: Seq<char>)
    ensures
        flag_owner(flags, flag) matches Some(i) ==> 0 <= i < flags.len() && flags[i].contains(
            flag,
        ),
        flag_owner(flags, flag) is None ==> forall|i: int|
            0 <= i < flags.len() ==> !(#[trigger] flags[i]).contains(flag),
    decreases flags.len(),
{
    if flags.len() > 0 {
        lemma_flag_owner_bound(flags.drop_last(), flag);
        if flag_owner(flags, flag) is None {
            assert forall|i: int| 0 <= i < flags.len() implies !(#[trigger] flags[i]).contains(
                flag,
            ) by {
                if i < flags.len() - 1 {
                    assert(flags.drop_last()[i] == flags[i]);
                }
            }
        }
    }
}

/// A name owner found is one of the options.
pub proof fn lemma_name_owner_bound(names: Seq<Seq<char>>, name: Seq<char>)
    ensures
        name_owner(names, name) matches Some(i) ==> 0 <= i < names.len() && names[i] == name,
        name_owner(names, name) is None ==> !names.contains(name),
    decreases names.len(),
{
    if names.len() > 0 {
        lemma_name_owner_bound(names.drop_last(), name);
        if name_owner(names, name) is None {
            if names.contains(name) {
                let j = choose|j: int| 0 <= j < names.len() && names[j] == name;
                assert(names.drop_last()[j] == name);
            }
        }
    }
}

/// The options, with the help text built from them and their lookup by flag and name.
#[derive(Debug)]
pub struct Arguments {
    pub help_msg: String,
    pub raw_args: Vec<Argument>,
    pub flags: Vec<(String, usize)>,
    pub names: Vec<(String, usize)>,
}

impl Arguments {
    /// Each flag and each name leads to the last option that has it.
    pub open spec fn wf(&self) -> bool {
        &&& forall|k: Seq<char>|
            #[trigger] lookup(self.flags@, k) == flag_owner(
                flag_lists(arg_views(self.raw_args@)),
                k,
            )
        &&& forall|k: Seq<char>|
            #[trigger] lookup(self.names@, k) == name_owner(
                name_list(arg_views(self.raw_args@)),
                k,
            )
    }

    /// The options as a sequence of abstract values.
    pub open spec fn args(&self) -> Seq<ArgumentView> {
        arg_views(self.raw_args@)
    }

    /// The option that `flag` sets, if any.
    pub open spec fn flag_target(&self, flag: Seq<char>) -> Option<int> {
        flag_owner(flag_lists(self.args()), flag)
    }

    /// The option named `name`, if any.
    pub open spec fn name_target(&self, name: Seq<char>) -> Option<int> {
        name_owner(name_list(self.args()), name)
    }

    /// The options, with the help text: `header`, each option's entry, `footer`.
    pub fn from(args: Vec<Argument>, header: &str, footer: &str) -> (r: Self)
        ensures
            r.wf(),
            r.raw_args@ == args@,
            r.args() == arg_views(args@),
            forall|k: Seq<char>| #[trigger] lookup(r.flags@, k) == r.flag_target(k),
            forall|k: Seq<char>| #[trigger] lookup(r.names@, k) == r.name_target(k),
            r.names@.len() == args@.len(),
            r.flags@.len() == flag_count(flag_lists(arg_views(args@))),
            r.help_msg@ == header@ + entries_text(arg_views(args@)) + footer@,
    {
        let ghost views = arg_views(args@);
        let ghost fl = flag_lists(views);
        let ghost nl = name_list(views);
        let mut flags: Vec<(String, usize)> = Vec::new();
        let mut names: Vec<(String, usize)> = Vec::new();
        let mut help: Vec<char> = chars_of(header);
        let mut i: usize = 0;
        while i < args.len()
            invariant
                i <= args@.len(),
                views == arg_views(args@),
                fl == flag_lists(views),
                nl == name_list(views),
                forall|k: Seq<char>| #[trigger] lookup(flags@, k) == flag_owner(fl.take(i as int), k),
                forall|k: Seq<char>| #[trigger] lookup(names@, k) == name_owner(nl.take(i as int), k),
                help@ == header@ + entries_text(views.take(i as int)),
                names@.len() == i,
                flags@.len() == flag_count(fl.take(i as int)),
            decreases args.len() - i,
        {
            let a = &args[i];
            let ghost fi = fl[i as int];
            assert(fi == texts(a.flags@));
            let mut j: usize = 0;
            while j < a.flags.len()
                invariant
                    i < args@.len(),
                    a == &args@[i as int],
                    j <= a.flags@.len(),
                    fi == texts(a.flags@),
                    flags@.len() == flag_count(fl.take(i as int)) + j,
                    forall|k: Seq<char>|
                        #[trigger] lookup(flags@, k) == if fi.take(j as int).contains(k) {
                            Some(i as int)
                        } else {
                            flag_owner(fl.take(i as int), k)
                        },
                decreases a.flags.len() - j,
            {
                let f = a.flags[j].clone();
                let ghost fg = f;
                assert(fg@ == fi[j as int]);
                let ghost before = flags@;
                flags.push((f, i));
                assert(flags@.last() == (fg, i));
                assert forall|k: Seq<char>| #[trigger]
                    lookup(flags@, k) == if fi.take(j + 1).contains(k) {
                        Some(i as int)
                    } else {
                        flag_owner(fl.take(i as int), k)
                    } by {
                    assert(flags@.drop_last() == before);
                    assert(lookup(flags@, k) == if fg@ == k {
                        Some(i as int)
                    } else {
                        lookup(before, k)
                    });
                    assert(lookup(before, k) == if fi.take(j as int).contains(k) {
                        Some(i as int)
                    } else {
                        flag_owner(fl.take(i as int), k)
                    });
                    if fg@ == k {
                        assert(fi.take(j + 1)[j as int] == k);
                    } else {
                        if fi.take(j + 1).contains(k) {
                            let w = choose|w: int| 0 <= w < j + 1 && #[trigger] fi.take(j + 1)[w] == k;
                            assert(w < j);
                            assert(fi.take(j as int)[w] == k);
                        }
                        if fi.take(j as int).contains(k) {
                            let w = choose|w: int| 0 <= w < j && #[trigger] fi.take(j as int)[w] == k;
                            assert(fi.take(j + 1)[w] == k);
                        }
                    }
                }
                j = j + 1;
            }
            assert(fi.take(fi.len() as int) == fi);
            assert(fl.take(i + 1).drop_last() == fl.take(i as int));
            assert(fl.take(i + 1).last() == fi);
            let nm = a.name.clone();
            let ghost ng = nm;
            assert(ng@ == nl[i as int]);
            let ghost before_names = names@;
            names.push((nm, i));
            assert(names@.last() == (ng, i));
            assert forall|k: Seq<char>| #[trigger]
                lookup(names@, k) == name_owner(nl.take(i + 1), k) by {
                assert(names@.drop_last() == before_names);
                assert(lookup(names@, k) == if ng@ == k {
                    Some(i as int)
                } else {
                    lookup(before_names, k)
                });
                assert(lookup(before_names, k) == name_owner(nl.take(i as int), k));
                assert(nl.take(i + 1).drop_last() == nl.take(i as int));
                assert(nl.take(i + 1).last() == a.name@);
            }
            let e = a.to_string();
            push_str(&mut help, e.as_str());
            assert(views.take(i + 1).drop_last() == views.take(i as int));
            assert(views.take(i + 1).last() == a@);
            i = i + 1;
        }
        assert(fl.take(fl.len() as int) == fl);
        assert(nl.take(nl.len() as int) == nl);
        assert(views.take(views.len() as int) == views);
        push_str(&mut help, footer);
        let help_msg = string_of(help.as_slice());
        Arguments { help_msg, raw_args: args, flags, names }
    }

    /// The index of the last pair in `pairs` whose key is `key`.
    fn find(pairs: &Vec<(String, usize)>, key: &str) -> (r: Option<usize>)
        ensures
            match r {
                Some(v) => lookup(pairs@, key@) == Some(v as int),
                None => lookup(pairs@, key@) is None,
            },
    {
        let mut j = pairs.len();
        assert(pairs@.take(j as int) == pairs@);
        while j > 0
            invariant
                j <= pairs@.len(),
                lookup(pairs@, key@) == lookup(pairs@.take(j as int), key@),
            decreases j,
        {
            let ghost t = pairs@.take(j as int);
            assert(t.drop_last() == pairs@.take(j - 1));
            assert(t.last() == pairs@[j - 1]);
            if str_eq(pairs[j - 1].0.as_str(), key) {
                return Some(pairs[j - 1].1);
            }
            j = j - 1;
        }
        None
    }

    /// The index of the option that `flag` sets, if any.
    fn find_flag(&self, flag: &str) -> (r: Option<usize>)
        requires
            self.wf(),
        ensures
            match r {
                Some(i) => self.flag_target(flag@) == Some(i as int) && i < self.raw_args@.len(),
                None => self.flag_target(flag@) is None,
            },
    {
        let r = Self::find(&self.flags, flag);
        proof {
            assert(lookup(self.flags@, flag@) == self.flag_target(flag@));
            lemma_flag_owner_bound(flag_lists(self.args()), flag@);
        }
        r
    }

    /// The index of the option named `name`, if any.
    fn find_name(&self, name: &str) -> (r: Option<usize>)
        requires
            self.wf(),
        ensures
            match r {
                Some(i) => self.name_target(name@) == Some(i as int) && i < self.raw_args@.len(),
                None => self.name_target(name@) is None,
            },
    {
        let r = Self::find(&self.names, name);
        proof {
            assert(lookup(self.names@, name@) == self.name_target(name@));
            lemma_name_owner_bound(name_list(self.args()), name@);
        }
        r
    }

    /// The option that `flag` sets, for changing; `None` where no option has the flag.
    pub fn match_flag(&mut self, flag: &String) -> (r: Option<&mut Argument>)
        requires
            old(self).wf(),
        ensures
            match old(self).flag_target(flag@) {
                None => r is None && *final(self) == *old(self),
                Some(i) => {
                    &&& r matches Some(x)
                    &&& *x == old(self).raw_args@[i]
                    &&& final(self).raw_args@ == old(self).raw_args@.update(i, *final(x))
                    &&& final(self).help_msg == old(self).help_msg
                    &&& final(self).flags == old(self).flags
                    &&& final(self).names == old(self).names
                },
            },
    {
        match self.find_flag(flag.as_str()) {
            Some(i) => Some(&mut self.raw_args[i]),
            None => None,
        }
    }

    /// The option named `name`, for changing.
    pub fn get(&mut self, name: &str) -> (r: &mut Argument)
        requires
            old(self).wf(),
            old(self).name_target(name@) is Some,
        ensures
            *r == old(self).raw_args@[old(self).name_target(name@).unwrap()],
            final(self).raw_args@ == old(self).raw_args@.update(
                old(self).name_target(name@).unwrap(),
                *final(r),
            ),
            final(self).help_msg == old(self).help_msg,
            final(self).flags == old(self).flags,
            final(self).names == old(self).names,
    {
        match self.find_name(name) {
            Some(i) => &mut self.raw_args[i],
            None => {
                assert(false);
                &mut self.raw_args[0]
            },
        }
    }

    /// The value in force for the option named `name`.
    pub fn get_val(&self, name: &str) -> (r: &ArgValue)
        requires
            self.wf(),
            self.name_target(name@) is Some,
        ensures
            r@ == self.args()[self.name_target(name@).unwrap()].current(),
    {
        match self.find_name(name) {
            Some(i) => self.raw_args[i].get(),
            None => {
                assert(false);
                self.raw_args[0].get()
            },
        }
    }

    /// The text in force for the option named `name`, where it takes text.
    pub open spec fn text_of(&self, name: Seq<char>) -> Option<Seq<char>> {
        match self.name_target(name) {
            Some(i) => match self.args()[i].current() {
                ArgValueView::Text(t) => Some(t),
                ArgValueView::Bool(_) => None,
            },
            None => None,
        }
    }

    /// The switch in force for the option named `name`, where it is a switch.
    pub open spec fn switch_of(&self, name: Seq<char>) -> Option<bool> {
        match self.name_target(name) {
            Some(i) => match self.args()[i].current() {
                ArgValueView::Bool(b) => Some(b),
                ArgValueView::Text(_) => None,
            },
            None => None,
        }
    }

    /// The decimal number in force for the option named `name`, where it takes text
    /// that is one.
    pub open spec fn number_of(&self, name: Seq<char>) -> Option<nat> {
        match self.text_of(name) {
            Some(t) => crate::text::parse_unsigned(t, 10, usize::MAX as nat),
            None => None,
        }
    }

    /// The text in force for the option named `name`.
    pub(crate) fn text_value(&self, name: &str) -> (r: &String)
        requires
            self.wf(),
            self.text_of(name@) is Some,
        ensures
            r@ == self.text_of(name@).unwrap(),
    {
        match self.get_val(name) {
            ArgValue::Text(t) => t,
            ArgValue::Bool(_) => {
                assert(false);
                &self.help_msg
            },
        }
    }

    /// The switch in force for the option named `name`.
    pub(crate) fn switch_value(&self, name: &str) -> (r: bool)
        requires
            self.wf(),
            self.switch_of(name@) is Some,
        ensures
            r == self.switch_of(name@).unwrap(),
    {
        match self.get_val(name) {
            ArgValue::Bool(b) => *b,
            ArgValue::Text(_) => false,
        }
    }

    /// The decimal number in force for the option named `name`.
    pub(crate) fn number_value(&self, name: &str) -> (r: usize)
        requires
            self.wf(),
            self.number_of(name@) is Some,
        ensures
            r == self.number_of(name@).unwrap(),
    {
        let t = chars_of(self.text_value(name).as_str());
        match crate::text::parse_unsigned_of(t.as_slice(), 10, usize::MAX as u64) {
            Some(v) => v as usize,
            None => 0,
        }
    }

    /// Whether the option named `name` is a switch.
    pub fn has_switch(&self, name: &str) -> (r: bool)
        requires
            self.wf(),
        ensures
            r == self.switch_of(name@) is Some,
    {
        match self.find_name(name) {
            None => false,
            Some(i) => match self.raw_args[i].get() {
                ArgValue::Bool(_) => true,
                ArgValue::Text(_) => false,
            },
        }
    }

    /// Whether the option named `name` holds a decimal number.
    pub fn has_number(&self, name: &str) -> (r: bool)
        requires
            self.wf(),
        ensures
            r == self.number_of(name@) is Some,
    {
        match self.find_name(name) {
            None => false,
            Some(i) => match self.raw_args[i].get() {
                ArgValue::Bool(_) => false,
                ArgValue::Text(t) => {
                    let c = chars_of(t.as_str());
                    crate::text::parse_unsigned_of(c.as_slice(), 10, usize::MAX as u64).is_some()
                },
            },
        }
    }

    /// The help text, wrapped at 100 columns.
    pub fn help_text(&self) -> (r: String)
        ensures
            r@ == filled(self.help_msg@, 100, Seq::empty()),
    {
        proof {
            reveal_strlit("");
        }
        assert(""@ =~= Seq::<char>::empty());
        fill(self.help_msg.as_str(), 100, "")
    }
}

// ---------------------------------------------------------------------------
// Reading an argument list
// ---------------------------------------------------------------------------

/// What reading the command line comes to.
#[derive(Debug)]
pub enum ArgsOutcome {
    /// Every argument was read; the options hold the values given.
    Run(Arguments),
    /// Help was asked for: the text to show.
    Help(String),
    /// An argument that is no option's flag.
    UnknownOption(String),
    /// An option that takes text came last, with no value after it.
    MissingValue(String),
    /// Help was asked for on something that is neither a flag nor an option's name.
    UnknownHelpTopic(String),
}

/// The abstract value of an `ArgsOutcome`.
pub ghost enum ArgsOutcomeView {
    Run(Seq<ArgumentView>),
    Help(Seq<char>),
    UnknownOption(Seq<char>),
    MissingValue(Seq<char>),
    UnknownHelpTopic(Seq<char>),
}

impl View for ArgsOutcome {
    type V = ArgsOutcomeView;

    open spec fn view(&self) -> ArgsOutcomeView {
        match self {
            ArgsOutcome::Run(a) => ArgsOutcomeView::Run(a.args()),
            ArgsOutcome::Help(t) => ArgsOutcomeView::Help(t@),
            ArgsOutcome::UnknownOption(t) => ArgsOutcomeView::UnknownOption(t@),
            ArgsOutcome::MissingValue(t) => ArgsOutcomeView::MissingValue(t@),
            ArgsOutcome::UnknownHelpTopic(t) => ArgsOutcomeView::UnknownHelpTopic(t@),
        }
    }
}

/// An argument `opt=value` stands for the two arguments `opt` and `value`; other
/// arguments stand for themselves.
pub open spec fn eq_parts(h: Seq<char>) -> Seq<Seq<char>> {
    if h.contains('=') {
        seq![split(h, '=')[0], split(h, '=')[1]]
    } else {
        seq![h]
    }
}

/// The option with `v` as the value given.
pub open spec fn with_value(a: ArgumentView, v: ArgValueView) -> ArgumentView {
    ArgumentView { value: Some(v), ..a }
}

/// The help on one option: its entry without the common indentation, then its long
/// help wrapped at 100 columns.
pub open spec fn topic_text(a: ArgumentView) -> Seq<char> {
    dedented(entry_text(a)) + seq!['\n'] + filled(a.help, 100, Seq::empty()) + seq!['\n']
}

/// How much is left to read: each argument counts twice, and once more where the
/// first still has to be split at `=`.
pub open spec fn args_measure(rest: Seq<Seq<char>>) -> int {
    2 * rest.len() + if rest.len() > 0 && rest[0].contains('=') {
        1int
    } else {
        0int
    }
}

/// Reading the arguments `rest` with the options `st` (whose help text is `help`):
/// each argument names an option by a flag; an option that takes text takes the next
/// argument as its value, a switch is turned on, and the help option shows the help
/// text, or the help on the option named by the next argument.
pub open spec fn read_args(st: Seq<ArgumentView>, help: Seq<char>, rest: Seq<Seq<char>>) -> ArgsOutcomeView
    decreases args_measure(rest),
{
    if rest.len() == 0 {
        ArgsOutcomeView::Run(st)
    } else {
        let parts = eq_parts(rest[0]);
        let opt = parts[0];
        let after = parts.drop_first() + rest.drop_first();
        match flag_owner(flag_lists(st), opt) {
            None => ArgsOutcomeView::UnknownOption(opt),
            Some(k) => if st[k].name == "help"@ {
                if after.len() == 0 {
                    ArgsOutcomeView::Help(filled(help, 100, Seq::empty()))
                } else {
                    let t = after[0];
                    let target = match flag_owner(flag_lists(st), t) {
                        Some(j) => Some(j),
                        None => name_owner(name_list(st), t),
                    };
                    match target {
                        None => ArgsOutcomeView::UnknownHelpTopic(t),
                        Some(j) => ArgsOutcomeView::Help(topic_text(st[j])),
                    }
                }
            } else {
                match st[k].default {
                    ArgValueView::Text(_) => if after.len() == 0 {
                        ArgsOutcomeView::MissingValue(opt)
                    } else {
                        read_args(
                            st.update(k, with_value(st[k], ArgValueView::Text(after[0]))),
                            help,
                            after.drop_first(),
                        )
                    },
                    ArgValueView::Bool(_) => {
                        proof {
                            lemma_split_pieces(rest[0], '=');
                            lemma_split_len(rest[0], '=');
                            if rest[0].contains('=') {
                                assert(after[0] == split(rest[0], '=')[1]);
                            }
                        }
                        read_args(
                            st.update(k, with_value(st[k], ArgValueView::Bool(true))),
                            help,
                            after,
                        )
                    },
                }
            },
        }
    }
}

/// Reading arguments only gives values: the options, their flags, names, descriptions
/// and defaults stay as they were, and an option keeps its value unless it is given one.
pub proof fn lemma_read_args_keeps_options(st: Seq<ArgumentView>, help: Seq<char>, rest: Seq<Seq<char>>)
    ensures
        read_args(st, help, rest) matches ArgsOutcomeView::Run(st2) ==> {
            &&& st2.len() == st.len()
            &&& flag_lists(st2) == flag_lists(st)
            &&& name_list(st2) == name_list(st)
            &&& forall|i: int|
                0 <= i < st.len() ==> {
                    &&& (#[trigger] st2[i]).default == st[i].default
                    &&& st2[i].description == st[i].description
                    &&& st2[i].help == st[i].help
                    &&& (st2[i].value == st[i].value || st2[i].value is Some)
                }
        },
    decreases args_measure(rest),
{
    if rest.len() > 0 {
        let parts = eq_parts(rest[0]);
        let opt = parts[0];
        let after = parts.drop_first() + rest.drop_first();
        match flag_owner(flag_lists(st), opt) {
            None => {},
            Some(k) => if st[k].name != "help"@ {
                lemma_flag_owner_bound(flag_lists(st), opt);
                let v = match st[k].default {
                    ArgValueView::Text(_) => ArgValueView::Text(after[0]),
                    ArgValueView::Bool(_) => ArgValueView::Bool(true),
                };
                let st1 = st.update(k, with_value(st[k], v));
                assert(flag_lists(st1) =~= flag_lists(st));
                assert(name_list(st1) =~= name_list(st));
                match st[k].default {
                    ArgValueView::Text(_) => if after.len() > 0 {
                        lemma_read_args_keeps_options(st1, help, after.drop_first());
                    },
                    ArgValueView::Bool(_) => {
                        lemma_split_pieces(rest[0], '=');
                        lemma_split_len(rest[0], '=');
                        if rest[0].contains('=') {
                            assert(after[0] == split(rest[0], '=')[1]);
                        }
                        lemma_read_args_keeps_options(st1, help, after);
                    },
                }
            },
        }
    }
}

/// An option and its value may be given as one argument `F=V` or as the two arguments
/// `F` and `V`: the command line comes to the same either way.
pub proof fn lemma_equals_form(
    st: Seq<ArgumentView>,
    help: Seq<char>,
    f: Seq<char>,
    v: Seq<char>,
    rest: Seq<Seq<char>>,
)
    requires
        !f.contains('='),
        !v.contains('='),
    ensures
        args_outcome(st, help, seq![f + seq!['='] + v] + rest) == args_outcome(
            st,
            help,
            seq![f, v] + rest,
        ),
{
    let joined = f + seq!['='] + v;
    let one = seq![joined] + rest;
    let two = seq![f, v] + rest;
    lemma_split_free(f, '=');
    lemma_split_after(f, '=', v);
    assert(joined.contains('=')) by {
        assert(joined[f.len() as int] == '=');
    }
    assert(eq_parts(joined) =~= seq![f, v]);
    assert(eq_parts(f) =~= seq![f]);
    assert(one[0] == joined);
    assert(two[0] == f);
    assert(eq_parts(joined).drop_first() + one.drop_first() =~= eq_parts(f).drop_first()
        + two.drop_first());
}

/// The options after reading exactly the arguments `p`, each an option with, where it
/// takes text, its value: `None` where `p` does not read that way (an unknown option, the
/// help option, or an option whose value is not within `p`).
pub open spec fn read_whole(st: Seq<ArgumentView>, p: Seq<Seq<char>>) -> Option<Seq<ArgumentView>>
    decreases args_measure(p),
{
    if p.len() == 0 {
        Some(st)
    } else {
        let parts = eq_parts(p[0]);
        let after = parts.drop_first() + p.drop_first();
        match flag_owner(flag_lists(st), parts[0]) {
            None => None,
            Some(k) => if st[k].name == "help"@ {
                None
            } else {
                match st[k].default {
                    ArgValueView::Text(_) => if after.len() == 0 {
                        None
                    } else {
                        read_whole(
                            st.update(k, with_value(st[k], ArgValueView::Text(after[0]))),
                            after.drop_first(),
                        )
                    },
                    ArgValueView::Bool(_) => {
                        proof {
                            lemma_split_pieces(p[0], '=');
                            lemma_split_len(p[0], '=');
                            if p[0].contains('=') {
                                assert(after[0] == split(p[0], '=')[1]);
                            }
                        }
                        read_whole(st.update(k, with_value(st[k], ArgValueView::Bool(true))), after)
                    },
                }
            },
        }
    }
}

/// Arguments read whole are read the same way whatever follows them.
pub proof fn lemma_read_whole(st: Seq<ArgumentView>, help: Seq<char>, p: Seq<Seq<char>>, q: Seq<Seq<char>>)
    requires
        read_whole(st, p) is Some,
    ensures
        read_args(st, help, p + q) == read_args(read_whole(st, p).unwrap(), help, q),
    decreases args_measure(p),
{
    if p.len() == 0 {
        assert(p + q =~= q);
    } else {
        let parts = eq_parts(p[0]);
        let after = parts.drop_first() + p.drop_first();
        let pq = p + q;
        assert(pq[0] == p[0]);
        assert(parts.drop_first() + pq.drop_first() =~= after + q);
        lemma_split_pieces(p[0], '=');
        lemma_split_len(p[0], '=');
        let k = flag_owner(flag_lists(st), parts[0]).unwrap();
        match st[k].default {
            ArgValueView::Text(_) => {
                assert((after + q)[0] == after[0]);
                assert((after + q).drop_first() =~= after.drop_first() + q);
                lemma_read_whole(
                    st.update(k, with_value(st[k], ArgValueView::Text(after[0]))),
                    help,
                    after.drop_first(),
                    q,
                );
            },
            ArgValueView::Bool(_) => {
                if p[0].contains('=') {
                    assert(after[0] == split(p[0], '=')[1]);
                }
                lemma_read_whole(
                    st.update(k, with_value(st[k], ArgValueView::Bool(true))),
                    help,
                    after,
                    q,
                );
            },
        }
    }
}

/// Wherever an option is read, it and its value may be given as one argument `F=V` or as
/// the two arguments `F` and `V`: after arguments `p` that are read whole (see
/// `read_whole`), the command line comes to the same either way.
pub proof fn lemma_equals_form_anywhere(
    st: Seq<ArgumentView>,
    help: Seq<char>,
    p: Seq<Seq<char>>,
    f: Seq<char>,
    v: Seq<char>,
    rest: Seq<Seq<char>>,
)
    requires
        read_whole(st, p) is Some,
        !f.contains('='),
        !v.contains('='),
    ensures
        args_outcome(st, help, p + (seq![f + seq!['='] + v] + rest)) == args_outcome(
            st,
            help,
            p + (seq![f, v] + rest),
        ),
{
    let st2 = read_whole(st, p).unwrap();
    lemma_read_whole(st, help, p, seq![f + seq!['='] + v] + rest);
    lemma_read_whole(st, help, p, seq![f, v] + rest);
    lemma_equals_form(st2, help, f, v, rest);
    assert((p + (seq![f + seq!['='] + v] + rest)).len() > 0);
    assert((p + (seq![f, v] + rest)).len() > 0);
}

/// What the command line `args` comes to: the help text where it is empty.
pub open spec fn args_outcome(st: Seq<ArgumentView>, help: Seq<char>, args: Seq<Seq<char>>) -> ArgsOutcomeView {
    if args.len() == 0 {
        ArgsOutcomeView::Help(filled(help, 100, Seq::empty()))
    } else {
        read_args(st, help, args)
    }
}

/// The arguments still to read: the pending one, if any, then `args` from `i`.
spec fn rest_of(pending: Option<Vec<char>>, args: Seq<Seq<char>>, i: int) -> Seq<Seq<char>> {
    match pending {
        Some(p) => seq![p@] + args.skip(i),
        None => args.skip(i),
    }
}

fn has_char(v: &[char], c: char) -> (r: bool)
    ensures
        r == v@.contains(c),
{
    let mut i: usize = 0;
    while i < v.len()
        invariant
            i <= v@.len(),
            forall|k: int| 0 <= k < i ==> v@[k] != c,
        decreases v.len() - i,
    {
        if v[i] == c {
            return true;
        }
        i = i + 1;
    }
    false
}

/// The help on one option (see `topic_text`).
pub fn topic(a: &Argument) -> (r: String)
    ensures
        r@ == topic_text(a@),
{
    let e = a.to_string();
    let d = dedent(e.as_str());
    let mut out = chars_of(d.as_str());
    out.push('\n');
    proof {
        reveal_strlit("");
    }
    assert(""@ =~= Seq::<char>::empty());
    let h = fill(a.help.as_str(), 100, "");
    push_str(&mut out, h.as_str());
    out.push('\n');
    string_of(out.as_slice())
}

impl Arguments {
    fn set_value(&mut self, k: usize, v: ArgValue)
        requires
            old(self).wf(),
            k < old(self).raw_args@.len(),
        ensures
            final(self).wf(),
            final(self).help_msg == old(self).help_msg,
            final(self).args() == old(self).args().update(
                k as int,
                with_value(old(self).args()[k as int], v@),
            ),
    {
        let ghost before = self.args();
        let ghost vv = v@;
        let a = &mut self.raw_args[k];
        a.value = Some(v);
        proof {
            assert(self.args() =~= before.update(k as int, with_value(before[k as int], vv)));
            assert(flag_lists(self.args()) =~= flag_lists(before));
            assert(name_list(self.args()) =~= name_list(before));
        }
    }
}

/// Reads the arguments `args` with the options `opts` (see `read_args`).
pub fn read_arguments(opts: Arguments, args: Vec<String>) -> (r: ArgsOutcome)
    requires
        opts.wf(),
    ensures
        r@ == read_args(opts.args(), opts.help_msg@, texts(args@)),
        r matches ArgsOutcome::Run(a) ==> a.wf() && a.help_msg == opts.help_msg,
{
    let mut table = opts;
    let ghost help = table.help_msg@;
    let ghost help_s = table.help_msg;
    let ghost all = texts(args@);
    let ghost goal = read_args(table.args(), help, all);
    let mut pending: Option<Vec<char>> = None;
    let mut i: usize = 0;
    assert(all.skip(0) == all);
    while pending.is_some() || i < args.len()
        invariant
            table.wf(),
            table.help_msg == help_s,
            help_s@ == help,
            all == texts(args@),
            i <= args@.len(),
            pending matches Some(p) ==> !p@.contains('='),
            read_args(table.args(), help, rest_of(pending, all, i as int)) == goal,
            goal == read_args(opts.args(), opts.help_msg@, texts(args@)),
            help_s == opts.help_msg,
        decreases args_measure(rest_of(pending, all, i as int)),
    {
        let ghost rest = rest_of(pending, all, i as int);
        let ghost st = table.args();
        let cur = pending;
        pending = None;
        let head: Vec<char> = match cur {
            Some(p) => p,
            None => {
                let h = chars_of(args[i].as_str());
                i = i + 1;
                h
            },
        };
        assert(rest.len() > 0 && rest[0] == head@);
        assert(rest.drop_first() == all.skip(i as int));
        let ghost parts = eq_parts(head@);
        let split_here = has_char(head.as_slice(), '=');
        let (opt, extra): (Vec<char>, Option<Vec<char>>) = if split_here {
            let mut pieces = split_chars(head.as_slice(), '=');
            proof {
                lemma_split_len(head@, '=');
                lemma_split_pieces(head@, '=');
            }
            let second = pieces.remove(1);
            let first = pieces.remove(0);
            (first, Some(second))
        } else {
            (head, None)
        };
        let ghost after = parts.drop_first() + rest.drop_first();
        assert(opt@ == parts[0]);
        assert(after == rest_of(extra, all, i as int));
        let opt_s = string_of(opt.as_slice());
        match table.find_flag(opt_s.as_str()) {
            None => {
                assert(read_args(st, help, rest) == ArgsOutcomeView::UnknownOption(parts[0]));
                return ArgsOutcome::UnknownOption(opt_s);
            },
            Some(k) => {
                proof {
                    lemma_flag_owner_bound(flag_lists(st), opt@);
                }
                assert(table.raw_args@[k as int]@ == st[k as int]);
                if str_eq(table.raw_args[k].name.as_str(), "help") {
                    let next: Option<String> = match extra {
                        Some(e) => Some(string_of(e.as_slice())),
                        None => if i < args.len() {
                            Some(args[i].clone())
                        } else {
                            None
                        },
                    };
                    match next {
                        None => {
                            return ArgsOutcome::Help(table.help_text());
                        },
                        Some(t) => {
                            assert(t@ == after[0]);
                            let target = match table.find_flag(t.as_str()) {
                                Some(j) => Some(j),
                                None => table.find_name(t.as_str()),
                            };
                            match target {
                                None => {
                                    return ArgsOutcome::UnknownHelpTopic(t);
                                },
                                Some(j) => {
                                    assert(table.raw_args@[j as int]@ == st[j as int]);
                                    return ArgsOutcome::Help(topic(&table.raw_args[j]));
                                },
                            }
                        },
                    }
                }
                let is_text = match &table.raw_args[k].default {
                    ArgValue::Text(_) => true,
                    ArgValue::Bool(_) => false,
                };
                if is_text {
                    let v: String = match extra {
                        Some(e) => string_of(e.as_slice()),
                        None => {
                            if i < args.len() {
                                let v = args[i].clone();
                                i = i + 1;
                                v
                            } else {
                                assert(after.len() == 0);
                                assert(read_args(st, help, rest) == ArgsOutcomeView::MissingValue(
                                    parts[0],
                                ));
                                return ArgsOutcome::MissingValue(opt_s);
                            }
                        },
                    };
                    assert(v@ == after[0]);
                    assert(after.drop_first() == rest_of(None, all, i as int));
                    table.set_value(k, ArgValue::Text(v));
                } else {
                    table.set_value(k, ArgValue::Bool(true));
                    pending = extra;
                }
            },
        }
    }
    assert(rest_of(pending, all, i as int).len() == 0);
    ArgsOutcome::Run(table)
}

// ---------------------------------------------------------------------------
// The command line of the decoder
// ---------------------------------------------------------------------------

/// The start of the help text.
pub const HELP_HEADER: &'static str = "usage: decoder [OPTIONS]

Options:
";

/// The end of the help text.
pub const HELP_FOOTER: &'static str = "
Common commands:
    decoder -i {exe_path} -o {file}.json -f j
        Decode the file at {exe_path}, infering executable sections from the headers, and write a 
        JSON representation of the result to {file}.json
";

/// The one-line description of the `tree` option.
pub const TREE_DESCRIPTION: &'static str = "The path to a JSON instruction tree";

/// The long help on the `tree` option.
pub const TREE_HELP: &'static str = "The path to a file containing a JSON representation of the instruction tree. This tree is used for mapping an opcode to an instruction, after which the instruction data from the tree can be used to determine the operands of the instruction. It is the heart of this disassembler. The goal of saving this tree as a JSON file is to enhance flexability, though unfortuantly because of the complexity of the x86 ISA, it is unlikley if not impossible that this program could be used to disassemble a different ISA using only a different tree. The main value of this flexability is in the ability to use a smaller version of the tree for improved performance when it is known that the code being disassembled doesn't use some subset of the instruction set.";

/// The one-line description of the `arch` option.
pub const ARCH_DESCRIPTION: &'static str = "The architecture size (32 or 64 bit)";

/// The long help on the `arch` option.
pub const ARCH_HELP: &'static str = "What version of the x86 architecture the code is written for. Can be either 32, or 64 bit.";

/// The one-line description of the `input` option.
pub const INPUT_DESCRIPTION: &'static str = "The input file";

/// The long help on the `input` option.
pub const INPUT_HELP: &'static str = "Where the data to be decoded comes from, either a valid relative/absolue path or the name of a file on your $PATH.";

/// The one-line description of the `interactive` option.
pub const INTERACTIVE_DESCRIPTION: &'static str = "Activate interactive mode";

/// The long help on the `interactive` option.
pub const INTERACTIVE_HELP: &'static str = "Run the program in an interactive mode. In interactive mode the user directly instructs the program, and can modify options on the fly. Similar to nslookup's interactive mode (Currently not implemented, sorry).";

/// The one-line description of the `offset` option.
pub const OFFSET_DESCRIPTION: &'static str = "The number of bytes to ignore before parsing";

/// The long help on the `offset` option.
pub const OFFSET_HELP: &'static str = "The number of bytes that will be ignored and not loaded to be parsed into instructions. For files with multiple executable sections this value will be ignored, unless no-infer is set.";

/// The one-line description of the `max` option.
pub const MAX_DESCRIPTION: &'static str = "The maximum number of bytes to read while parsing, or 0 for no limit";

/// The long help on the `max` option.
pub const MAX_HELP: &'static str = "The max bytes that will be read from the input and loaded for decoding. Note that this is not affected by the offset, e.g. --offset 100 --max 50 will load the 50 bytes following the offset. This differs from lines in that it is purely bytewise, making no attempt to align to the end of an instruction, and that it affects the number of bytes actually read from the file, and will result in lower memory usage for the same output if used carefully.";

/// The one-line description of the `output` option.
pub const OUTPUT_DESCRIPTION: &'static str = "The path to an output file, or \"-\" for stdout";

/// The long help on the `output` option.
pub const OUTPUT_HELP: &'static str = "Where the data will be written, must be either a valid file path or \"-\" for stdout";

/// The one-line description of the `format` option.
pub const FORMAT_DESCRIPTION: &'static str = "How the decoded data should be presented (PrettyPrint, PlusBytes, JSON)";

/// The long help on the `format` option.
pub const FORMAT_HELP: &'static str = "What format should the output be, one of PrettyPrint, PlusBytes, or JSON. This differs from custom in that it doesn't change the data produced by the decoder, only the actual output of the program. What each type represents is specified below.
PrettyPrint: Outputs only the assembly instructions line by line
PlusBytes: Same as PrettyPrint, but with the bytes associated with the instruction on the line above the instruction
JSON: A JSON string containing all of the data generated by the decoder, with the following structure:
[
{
    instrution: { // Generic data on the instruction, built from the Intel 64 and IA-32 Architectures Software Development Manual, or null 
        opcode: \"\",
        text: \"\",
        x64: true,
        legacy: false,
        operands: [ 
    {
            size: 64, // In bits
            encoding: \"\" // One of Opcode, Immediate, Modrm, Modreg, Bespoke
            reg: \"\" // One of null, GPReg, SegReg, FPUReg, MMXReg, BoundReg, KReg
            text: \"\"
    },
    ],
        size: 64, // In bits
        invalid_prefixes: [0x66],
        description: \"\",
    },
    operands: [\"\"], // The specific operands for this instance of the instruction, or null
    bytes: [0x00], // The bytes making up this instance of the instruction
},
]
";

/// The one-line description of the `custom` option.
pub const CUSTOM_DESCRIPTION: &'static str = "JSON (either a file or an inline JSON string) describing the formating of the instructions";

/// The long help on the `custom` option.
pub const CUSTOM_HELP: &'static str = "This JSON data is used to determine the formatting of the text representation of the instructions. This differs from format in that it changes the data produced by the decoder, and only indirectly affects the actual output. If a field is not specified in the JSON the default is used. The fields and their defaults are specified below.
{
    reg_uppercase: true, // Should registers be uppercase
    imm_uppercase: true, // Should letters in immediate values be uppercase
    addr_open: \"[\", // String appended directly before a memory address
    addr_close: \"]\", // String appended directly after a memory address
    addr_add: \"+\", // String used to denote addition in effective address calculation
    addr_mul: \"*\", // String used to denote multiplication in effective address calculation
    addr_scale_two: \"2\", // String used to denote two in effective address calculation with SIB byte
    addr_scale_four: \"4\", // String used to denote four in effective address calculation with SIB byte
    addr_scale_eight: \"8\", // String used to denote eight in effective address calculation with SIB byte
    addr_prefix: \"\", // String prepended to a memory address 
    addr_byte: \"byte \", // String prepended to 8 bit memory accesses
    addr_word: \"word \", // String prepended to 16 bit memory accesses
    addr_dword: \"dword \", // String prepended to 32 bit memory accesses
    addr_qword: \"qword \", // String prepended to 64 bit memory accesses
    addr_tword: \"tword \", // String prepended to 80 bit memory accesses
    addr_oword: \"oword \", // String prepended to 128 bit memory accesses
    addr_yword: \"yword \", // String prepended to 256 bit memory accesses
    addr_zword: \"zword \", // String prepended to 512 bit memory accesses
    imm_prefix: \"0x\", // String prepended to an immediate value
    imm_suffix: \"\", // String appended to an immediate value
    imm_fmt: \"Hex\", // Format for immedate values, one of Hex, Dec, Bi, Oct (base 16, 10, 2, and 8 respectivly)
    ins_uppercase: true, // Should the text of the instruction itself be uppercase
    code_fmt: \"Hex\", // Format for opcode bytes, one of Hex, Dec, Bi, Oct (base 16, 10, 2, and 8 respectivly) 
}
The default values produce NASM-style assembly
";

/// The one-line description of the `lines` option.
pub const LINES_DESCRIPTION: &'static str = "The maximum number of instructions to parse, or 0 for unlimited";

/// The long help on the `lines` option.
pub const LINES_HELP: &'static str = "This option provides a maximum number of instructions to parse. Setting it to any value other than 0 will cause the parser to decode instructions until either it reaches the end of the data or it has reached the limit. This differs from max in that it doesn't effect how many bytes are read from the file, it only acts as a logical check.";

/// The one-line description of the `no-infer` option.
pub const NO_INFER_DESCRIPTION: &'static str = "Do not parse executable headers to find code regions, use arguments/defaults";

/// The long help on the `no-infer` option.
pub const NO_INFER_HELP: &'static str = "Enabling this option will skip the code that parses executable headers to find where the executable region of the code starts and how large it is. This code uses the same variables as the offset and max arguments, and checks if a value was passed as an argument, so if you specify values for max and offset this option is redundent.";

/// The one-line description of the `help` option.
pub const HELP_DESCRIPTION: &'static str = "Display a detailed help message about this program or about specific arguments";

/// The long help on the `help` option.
pub const HELP_HELP: &'static str = "Display a detailed help message about this program or about specific arguments";

/// An option with no value given.
pub open spec fn option_entry(
    name: Seq<char>,
    description: Seq<char>,
    help: Seq<char>,
    default: ArgValueView,
    flags: Seq<Seq<char>>,
) -> ArgumentView {
    ArgumentView { name, description, help, default, flags, value: None }
}

/// The options of the command line, in order.
pub open spec fn option_table() -> Seq<ArgumentView> {
    seq![
        option_entry("tree"@, TREE_DESCRIPTION@, TREE_HELP@, ArgValueView::Text("./tree64.json"@), seq!["-t"@, "--tree"@]),
        option_entry("arch"@, ARCH_DESCRIPTION@, ARCH_HELP@, ArgValueView::Text("x64"@), seq!["-a"@, "--arch"@]),
        option_entry("input"@, INPUT_DESCRIPTION@, INPUT_HELP@, ArgValueView::Text(""@), seq!["-i"@, "--input"@]),
        option_entry("interactive"@, INTERACTIVE_DESCRIPTION@, INTERACTIVE_HELP@, ArgValueView::Bool(false), seq!["-I"@, "--inter"@, "--interactive"@]),
        option_entry("offset"@, OFFSET_DESCRIPTION@, OFFSET_HELP@, ArgValueView::Text("0"@), seq!["--offset"@]),
        option_entry("max"@, MAX_DESCRIPTION@, MAX_HELP@, ArgValueView::Text("0"@), seq!["-m"@, "--max"@]),
        option_entry("output"@, OUTPUT_DESCRIPTION@, OUTPUT_HELP@, ArgValueView::Text("-"@), seq!["-o"@, "--output"@]),
        option_entry("format"@, FORMAT_DESCRIPTION@, FORMAT_HELP@, ArgValueView::Text("PrettyPrint"@), seq!["-f"@, "--format"@]),
        option_entry("custom"@, CUSTOM_DESCRIPTION@, CUSTOM_HELP@, ArgValueView::Text(""@), seq!["-c"@, "--custom"@]),
        option_entry("lines"@, LINES_DESCRIPTION@, LINES_HELP@, ArgValueView::Text("0"@), seq!["-l"@, "--lines"@]),
        option_entry("no-infer"@, NO_INFER_DESCRIPTION@, NO_INFER_HELP@, ArgValueView::Bool(false), seq!["--no-infer"@]),
        option_entry("help"@, HELP_DESCRIPTION@, HELP_HELP@, ArgValueView::Text(""@), seq!["-h"@, "--help"@]),
    ]
}

/// The options of the command line (see `option_table`), with the help text built from them.
pub fn default_arguments() -> (r: Arguments)
    ensures
        r.wf(),
        r.args() == option_table(),
        r.help_msg@ == default_help(),
{
    let mut v: Vec<Argument> = Vec::new();
    v.push(Argument::new("tree", TREE_DESCRIPTION, TREE_HELP, ArgValue::Text(String::from_str("./tree64.json")), vec!["-t", "--tree"]));
    v.push(Argument::new("arch", ARCH_DESCRIPTION, ARCH_HELP, ArgValue::Text(String::from_str("x64")), vec!["-a", "--arch"]));
    v.push(Argument::new("input", INPUT_DESCRIPTION, INPUT_HELP, ArgValue::Text(String::from_str("")), vec!["-i", "--input"]));
    v.push(Argument::new("interactive", INTERACTIVE_DESCRIPTION, INTERACTIVE_HELP, ArgValue::Bool(false), vec!["-I", "--inter", "--interactive"]));
    v.push(Argument::new("offset", OFFSET_DESCRIPTION, OFFSET_HELP, ArgValue::Text(String::from_str("0")), vec!["--offset"]));
    v.push(Argument::new("max", MAX_DESCRIPTION, MAX_HELP, ArgValue::Text(String::from_str("0")), vec!["-m", "--max"]));
    v.push(Argument::new("output", OUTPUT_DESCRIPTION, OUTPUT_HELP, ArgValue::Text(String::from_str("-")), vec!["-o", "--output"]));
    v.push(Argument::new("format", FORMAT_DESCRIPTION, FORMAT_HELP, ArgValue::Text(String::from_str("PrettyPrint")), vec!["-f", "--format"]));
    v.push(Argument::new("custom", CUSTOM_DESCRIPTION, CUSTOM_HELP, ArgValue::Text(String::from_str("")), vec!["-c", "--custom"]));
    v.push(Argument::new("lines", LINES_DESCRIPTION, LINES_HELP, ArgValue::Text(String::from_str("0")), vec!["-l", "--lines"]));
    v.push(Argument::new("no-infer", NO_INFER_DESCRIPTION, NO_INFER_HELP, ArgValue::Bool(false), vec!["--no-infer"]));
    v.push(Argument::new("help", HELP_DESCRIPTION, HELP_HELP, ArgValue::Text(String::from_str("")), vec!["-h", "--help"]));
    assert(v@[0]@.flags =~= seq!["-t"@, "--tree"@]);
    assert(v@[1]@.flags =~= seq!["-a"@, "--arch"@]);
    assert(v@[2]@.flags =~= seq!["-i"@, "--input"@]);
    assert(v@[3]@.flags =~= seq!["-I"@, "--inter"@, "--interactive"@]);
    assert(v@[4]@.flags =~= seq!["--offset"@]);
    assert(v@[5]@.flags =~= seq!["-m"@, "--max"@]);
    assert(v@[6]@.flags =~= seq!["-o"@, "--output"@]);
    assert(v@[7]@.flags =~= seq!["-f"@, "--format"@]);
    assert(v@[8]@.flags =~= seq!["-c"@, "--custom"@]);
    assert(v@[9]@.flags =~= seq!["-l"@, "--lines"@]);
    assert(v@[10]@.flags =~= seq!["--no-infer"@]);
    assert(v@[11]@.flags =~= seq!["-h"@, "--help"@]);
    assert(arg_views(v@) =~= option_table());
    Arguments::from(v, HELP_HEADER, HELP_FOOTER)
}

/// The help text of the command line.
pub open spec fn default_help() -> Seq<char> {
    HELP_HEADER@ + entries_text(option_table()) + HELP_FOOTER@
}

/// Reads the command line `args` (the program's arguments after its name) with the
/// options of `option_table`; with no arguments, the help text.
pub fn handle_args(args: Vec<String>) -> (r: ArgsOutcome)
    ensures
        r@ == args_outcome(option_table(), default_help(), texts(args@)),
        r matches ArgsOutcome::Run(a) ==> a.wf() && a.help_msg@ == default_help(),
{
    let opts = default_arguments();
    if args.len() == 0 {
        return ArgsOutcome::Help(opts.help_text());
    }
    read_arguments(opts, args)
}

// ---------------------------------------------------------------------------
// Interactive commands, architectures and output formats
// ---------------------------------------------------------------------------

/// A command of the interactive mode.
#[derive(Clone, Copy, Debug, PartialEq, Eq, Structural)]
pub enum InterCmd {
    Print,
    SetValue,
    Load,
    Parse,
    Step,
    Exit,
}

/// The index of the first space in `s`, if any.
pub open spec fn first_space(s: Seq<char>) -> Option<int>
    decreases s.len(),
{
    if s.len() == 0 {
        None
    } else if s[0] == ' ' {
        Some(0)
    } else {
        match first_space(s.drop_first()) {
            Some(i) => Some(i + 1),
            None => None,
        }
    }
}

/// The command word of a command line and its argument: the text before the first
/// space and the trimmed text after it; the whole line trimmed, with an empty
/// argument, where there is no space.
pub open spec fn command_parts(t: Seq<char>) -> (Seq<char>, Seq<char>) {
    match first_space(t) {
        Some(i) => (t.take(i), trim(t.skip(i + 1))),
        None => (trim(t), Seq::empty()),
    }
}

/// The command that a word names.
pub open spec fn command_named(w: Seq<char>) -> Option<InterCmd> {
    if w == "exit"@ {
        Some(InterCmd::Exit)
    } else if w == "print"@ {
        Some(InterCmd::Print)
    } else if w == "parse"@ {
        Some(InterCmd::Parse)
    } else if w == "load"@ {
        Some(InterCmd::Load)
    } else if w == "step"@ {
        Some(InterCmd::Step)
    } else if w == "set"@ {
        Some(InterCmd::SetValue)
    } else {
        None
    }
}

/// A command line read: the command and, for every command but `exit`, its argument.
pub open spec fn command_of(t: Seq<char>) -> Option<(InterCmd, Option<Seq<char>>)> {
    let (w, a) = command_parts(t);
    match command_named(w) {
        None => None,
        Some(InterCmd::Exit) => Some((InterCmd::Exit, None)),
        Some(c) => Some((c, Some(a))),
    }
}

fn first_space_of(s: &[char]) -> (r: Option<usize>)
    ensures
        match r {
            Some(i) => first_space(s@) == Some(i as int) && i < s@.len(),
            None => first_space(s@) is None,
        },
{
    let mut i: usize = 0;
    assert(s@.skip(0) == s@);
    while i < s.len()
        invariant
            i <= s@.len(),
            first_space(s@) == match first_space(s@.skip(i as int)) {
                Some(j) => Some(j + i),
                None => None,
            },
        decreases s.len() - i,
    {
        assert(s@.skip(i as int).drop_first() == s@.skip(i + 1));
        if s[i] == ' ' {
            return Some(i);
        }
        i = i + 1;
    }
    None
}

/// Reads a line of the interactive mode (see `command_of`).
pub fn parse_command(text: &String) -> (r: Option<(InterCmd, Option<String>)>)
    ensures
        match r {
            None => command_of(text@) is None,
            Some((c, a)) => command_of(text@) == Some(
                (
                    c,
                    match a {
                        Some(x) => Some(x@),
                        None => None,
                    },
                ),
            ),
        },
{
    let t = chars_of(text.as_str());
    let (w, a): (Vec<char>, Vec<char>) = match first_space_of(t.as_slice()) {
        Some(i) => {
            let mut w: Vec<char> = Vec::new();
            let mut rest: Vec<char> = Vec::new();
            let mut k: usize = 0;
            while k < t.len()
                invariant
                    i < t@.len(),
                    k <= t@.len(),
                    k <= i ==> w@ == t@.take(k as int) && rest@.len() == 0,
                    k > i ==> w@ == t@.take(i as int) && rest@ == t@.subrange(i + 1, k as int),
                decreases t.len() - k,
            {
                if k < i {
                    w.push(t[k]);
                    assert(t@.take(k + 1) == t@.take(k as int).push(t@[k as int]));
                } else if k > i {
                    rest.push(t[k]);
                    assert(t@.subrange(i + 1, k + 1) == t@.subrange(i + 1, k as int).push(
                        t@[k as int],
                    ));
                } else {
                    assert(t@.subrange(i + 1, k + 1) == Seq::<char>::empty());
                }
                k = k + 1;
            }
            assert(t@.subrange(i + 1, t@.len() as int) == t@.skip(i + 1));
            (w, trim_chars(rest.as_slice()))
        },
        None => (trim_chars(t.as_slice()), Vec::new()),
    };
    assert(command_parts(text@) == (w@, a@));
    let arg = string_of(a.as_slice());
    if same(w.as_slice(), "exit") {
        Some((InterCmd::Exit, None))
    } else if same(w.as_slice(), "print") {
        Some((InterCmd::Print, Some(arg)))
    } else if same(w.as_slice(), "parse") {
        Some((InterCmd::Parse, Some(arg)))
    } else if same(w.as_slice(), "load") {
        Some((InterCmd::Load, Some(arg)))
    } else if same(w.as_slice(), "step") {
        Some((InterCmd::Step, Some(arg)))
    } else if same(w.as_slice(), "set") {
        Some((InterCmd::SetValue, Some(arg)))
    } else {
        None
    }
}

/// The destination and value of a `set` command: the text before the first space and
/// the text after it; `None` where there is no space.
pub fn set_parts(args: &str) -> (r: Option<(String, String)>)
    ensures
        match r {
            Some((a, b)) => first_space(args@) matches Some(i) && a@ == args@.take(i) && b@
                == args@.skip(i + 1),
            None => first_space(args@) is None,
        },
{
    let t = chars_of(args);
    match first_space_of(t.as_slice()) {
        None => None,
        Some(i) => {
            let mut a: Vec<char> = Vec::new();
            let mut b: Vec<char> = Vec::new();
            let mut k: usize = 0;
            while k < t.len()
                invariant
                    i < t@.len(),
                    k <= t@.len(),
                    k <= i ==> a@ == t@.take(k as int) && b@.len() == 0,
                    k > i ==> a@ == t@.take(i as int) && b@ == t@.subrange(i + 1, k as int),
                decreases t.len() - k,
            {
                if k < i {
                    a.push(t[k]);
                    assert(t@.take(k + 1) == t@.take(k as int).push(t@[k as int]));
                } else if k > i {
                    b.push(t[k]);
                    assert(t@.subrange(i + 1, k + 1) == t@.subrange(i + 1, k as int).push(
                        t@[k as int],
                    ));
                } else {
                    assert(t@.subrange(i + 1, k + 1) == Seq::<char>::empty());
                }
                k = k + 1;
            }
            assert(t@.subrange(i + 1, t@.len() as int) == t@.skip(i + 1));
            Some((string_of(a.as_slice()), string_of(b.as_slice())))
        },
    }
}

/// The architecture that a name (in lower case) stands for.
pub open spec fn arch_named(s: Seq<char>) -> Option<ArchSize> {
    if s == "64"@ || s == "i64"@ || s == "x64"@ {
        Some(ArchSize::I64)
    } else if s == "32"@ || s == "i32"@ || s == "x32"@ {
        Some(ArchSize::I32)
    } else if s == "16"@ || s == "i16"@ || s == "x16"@ {
        Some(ArchSize::I16)
    } else {
        None
    }
}

fn arch_of(s: &[char]) -> (r: Option<ArchSize>)
    ensures
        r == arch_named(s@),
{
    if same(s, "64") || same(s, "i64") || same(s, "x64") {
        Some(ArchSize::I64)
    } else if same(s, "32") || same(s, "i32") || same(s, "x32") {
        Some(ArchSize::I32)
    } else if same(s, "16") || same(s, "i16") || same(s, "x16") {
        Some(ArchSize::I16)
    } else {
        None
    }
}

/// The architecture named by `arch`, in any case.
pub fn parse_arch(arch: &str) -> (r: ArchSize)
    requires
        arch_named(lowercase(arch@)) is Some,
    ensures
        Some(r) == arch_named(lowercase(arch@)),
{
    let l = to_lowercase(arch);
    let c = chars_of(l.as_str());
    match arch_of(c.as_slice()) {
        Some(a) => a,
        None => ArchSize::I64,
    }
}

/// The architecture named by `arch`, in any case; `None` where it names none.
pub fn arch_from(arch: &str) -> (r: Option<ArchSize>)
    ensures
        r == arch_named(lowercase(arch@)),
{
    let l = to_lowercase(arch);
    let c = chars_of(l.as_str());
    match arch_of(c.as_slice()) {
        Some(_) => Some(parse_arch(arch)),
        None => None,
    }
}

/// How the decoded code is written out.
#[derive(Clone, Copy, Debug, PartialEq, Eq, Structural)]
pub enum OutputFormat {
    PlusBytes,
    PrettyPrint,
    JSON,
}

/// The output format that a name (in lower case) stands for.
pub open spec fn format_named(s: Seq<char>) -> Option<OutputFormat> {
    if s == "print"@ || s == "p"@ || s == "prettyprint"@ {
        Some(OutputFormat::PrettyPrint)
    } else if s == "json"@ || s == "j"@ {
        Some(OutputFormat::JSON)
    } else if s == "bytes"@ || s == "byte"@ || s == "b"@ || s == "plusbytes"@ {
        Some(OutputFormat::PlusBytes)
    } else {
        None
    }
}

fn format_of(s: &[char]) -> (r: Option<OutputFormat>)
    ensures
        r == format_named(s@),
{
    if same(s, "print") || same(s, "p") || same(s, "prettyprint") {
        Some(OutputFormat::PrettyPrint)
    } else if same(s, "json") || same(s, "j") {
        Some(OutputFormat::JSON)
    } else if same(s, "bytes") || same(s, "byte") || same(s, "b") || same(s, "plusbytes") {
        Some(OutputFormat::PlusBytes)
    } else {
        None
    }
}

/// The output format named by `format`, in any case.
pub fn parse_format(format: &str) -> (r: OutputFormat)
    requires
        format_named(lowercase(format@)) is Some,
    ensures
        Some(r) == format_named(lowercase(format@)),
{
    let l = to_lowercase(format);
    let c = chars_of(l.as_str());
    match format_of(c.as_slice()) {
        Some(f) => f,
        None => OutputFormat::PrettyPrint,
    }
}

/// The output format named by `format`, in any case; `None` where it names none.
pub fn format_from(format: &str) -> (r: Option<OutputFormat>)
    ensures
        r == format_named(lowercase(format@)),
{
    let l = to_lowercase(format);
    let c = chars_of(l.as_str());
    match format_of(c.as_slice()) {
        Some(_) => Some(parse_format(format)),
        None => None,
    }
}

// ---------------------------------------------------------------------------
// Settings typed in the interactive mode, and finding the input file
// ---------------------------------------------------------------------------

/// The switch that a word (in lower case) stands for.
pub open spec fn switch_named(s: Seq<char>) -> Option<bool> {
    if s == "true"@ || s == "t"@ || s == "yes"@ || s == "y"@ {
        Some(true)
    } else if s == "false"@ || s == "f"@ || s == "no"@ || s == "n"@ {
        Some(false)
    } else {
        None
    }
}

/// The switch that a word stands for, in any case: `true`, `t`, `yes` or `y`, or
/// `false`, `f`, `no` or `n`.
pub fn switch_word(arg: &str) -> (r: Option<bool>)
    ensures
        r == switch_named(lowercase(arg@)),
{
    let l = to_lowercase(arg);
    let c = chars_of(l.as_str());
    let s = c.as_slice();
    if same(s, "true") || same(s, "t") || same(s, "yes") || same(s, "y") {
        Some(true)
    } else if same(s, "false") || same(s, "f") || same(s, "no") || same(s, "n") {
        Some(false)
    } else {
        None
    }
}

/// A decimal number of at most `max`, as `from_str` reads one for an unsigned type.
pub fn decimal_word(arg: &str, max: u64) -> (r: Option<u64>)
    ensures
        match r {
            Some(v) => crate::text::parse_unsigned(arg@, 10, max as nat) == Some(v as nat),
            None => crate::text::parse_unsigned(arg@, 10, max as nat) is None,
        },
{
    let c = chars_of(arg);
    crate::text::parse_unsigned_of(c.as_slice(), 10, max)
}

/// Where to look for a file named `filename` along a search path: each directory of
/// `path_var` (separated by `;` on Windows, `:` elsewhere), with the directory
/// separator (`\` on Windows, `/` elsewhere) added unless it already ends in one.
pub open spec fn candidates(path_var: Seq<char>, filename: Seq<char>, windows: bool) -> Seq<Seq<char>> {
    let sep = if windows {
        ';'
    } else {
        ':'
    };
    let dc = if windows {
        '\\'
    } else {
        '/'
    };
    split(path_var, sep).map_values(
        |d: Seq<char>|
            if d.len() > 0 && d.last() == dc {
                d + filename
            } else {
                d.push(dc) + filename
            },
    )
}

/// The places to look for `filename` along the search path `path_var`, in order (see
/// `candidates`).
pub fn path_candidates(path_var: &str, filename: &str, windows: bool) -> (r: Vec<String>)
    ensures
        r@.len() == candidates(path_var@, filename@, windows).len(),
        forall|i: int| 0 <= i < r@.len() ==> (#[trigger] r@[i])@ == candidates(path_var@, filename@, windows)[i],
{
    let sep = if windows {
        ';'
    } else {
        ':'
    };
    let dc = if windows {
        '\\'
    } else {
        '/'
    };
    let p = chars_of(path_var);
    let dirs = split_chars(p.as_slice(), sep);
    let ghost want = candidates(path_var@, filename@, windows);
    let mut out: Vec<String> = Vec::new();
    let mut i: usize = 0;
    while i < dirs.len()
        invariant
            i <= dirs@.len(),
            dirs@.len() == split(p@, sep).len(),
            forall|k: int| 0 <= k < dirs@.len() ==> (#[trigger] dirs@[k])@ == split(p@, sep)[k],
            p@ == path_var@,
            want == candidates(path_var@, filename@, windows),
            sep == (if windows {
                ';'
            } else {
                ':'
            }),
            dc == (if windows {
                '\\'
            } else {
                '/'
            }),
            out@.len() == i,
            forall|k: int| 0 <= k < i ==> (#[trigger] out@[k])@ == want[k],
        decreases dirs.len() - i,
    {
        let d = &dirs[i];
        let mut full: Vec<char> = Vec::new();
        let mut k: usize = 0;
        while k < d.len()
            invariant
                k <= d@.len(),
                full@ == d@.take(k as int),
            decreases d.len() - k,
        {
            full.push(d[k]);
            assert(d@.take(k + 1) == d@.take(k as int).push(d@[k as int]));
            k = k + 1;
        }
        assert(d@.take(d@.len() as int) == d@);
        if !(d.len() > 0 && d[d.len() - 1] == dc) {
            full.push(dc);
        }
        push_str(&mut full, filename);
        assert(d@ == split(p@, sep)[i as int]);
        out.push(string_of(full.as_slice()));
        i = i + 1;
    }
    out
}

} // verus!
