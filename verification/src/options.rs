//! What the server is asked to do: its arguments, and what it finds in its
//! environment.

use vstd::prelude::*;
use vstd::string::{StrSliceExecFns, StringExecFns};

use crate::text::{self, parse_i32, same_text};

verus! {

/// What the arguments ask for.
pub struct Options {
    pub desired_ip: Option<String>,
    pub desired_port: Option<String>,
    pub colors: i32,
    pub verbose: bool,
    pub use_ssh_ip: bool,
    pub command: Option<Vec<String>>,
}

/// The content of [`Options`].
#[verifier::ext_equal]
pub struct OptionsView {
    pub desired_ip: Option<Seq<char>>,
    pub desired_port: Option<Seq<char>>,
    pub colors: i32,
    pub verbose: bool,
    pub use_ssh_ip: bool,
    pub command: Option<Seq<Seq<char>>>,
}

/// The content of an optional text.
pub open spec fn text_view(s: Option<String>) -> Option<Seq<char>> {
    match s {
        Some(s) => Some(s@),
        None => None,
    }
}

/// The content of texts.
pub open spec fn text_views(s: Seq<String>) -> Seq<Seq<char>> {
    Seq::new(s.len(), |i: int| s[i]@)
}

impl View for Options {
    type V = OptionsView;

    open spec fn view(&self) -> OptionsView {
        OptionsView {
            desired_ip: text_view(self.desired_ip),
            desired_port: text_view(self.desired_port),
            colors: self.colors,
            verbose: self.verbose,
            use_ssh_ip: self.use_ssh_ip,
            command: match self.command {
                Some(c) => Some(text_views(c@)),
                None => None,
            },
        }
    }
}

impl OptionsView {
    /// What is done where no argument asks for anything.
    pub open spec fn default_options() -> OptionsView {
        OptionsView {
            desired_ip: None,
            desired_port: None,
            colors: 0,
            verbose: false,
            use_ssh_ip: false,
            command: None,
        }
    }
}

/// The number of colors that a text asks for, 0 where it makes no sense.
pub open spec fn colors_of(s: Seq<char>) -> i32 {
    match text::signed(s) {
        Some(v) => if i32::MIN <= v <= i32::MAX {
            v as i32
        } else {
            0
        },
        None => 0,
    }
}

/// What the arguments from `i` on ask for, besides what those before them do. A
/// later argument takes the place of an earlier one; an unknown one is passed
/// over; after two dashes comes the command, if anything does.
pub open spec fn options_from(o: OptionsView, args: Seq<Seq<char>>, i: int) -> OptionsView
    decreases args.len() - i,
{
    if i < 0 || i >= args.len() {
        o
    } else if args[i] == "--"@ {
        if i + 1 < args.len() {
            OptionsView { command: Some(args.skip(i + 1)), ..o }
        } else {
            o
        }
    } else if args[i] == "-i"@ {
        if i + 1 < args.len() {
            options_from(OptionsView { desired_ip: Some(args[i + 1]), ..o }, args, i + 2)
        } else {
            o
        }
    } else if args[i] == "-p"@ {
        if i + 1 < args.len() {
            options_from(OptionsView { desired_port: Some(args[i + 1]), ..o }, args, i + 2)
        } else {
            o
        }
    } else if args[i] == "-c"@ {
        if i + 1 < args.len() {
            options_from(OptionsView { colors: colors_of(args[i + 1]), ..o }, args, i + 2)
        } else {
            o
        }
    } else if args[i] == "-s"@ {
        options_from(OptionsView { use_ssh_ip: true, ..o }, args, i + 1)
    } else if args[i] == "-v"@ {
        options_from(OptionsView { verbose: true, ..o }, args, i + 1)
    } else {
        options_from(o, args, i + 1)
    }
}

/// What the arguments ask for. The first one is the name of the program, and the
/// one after it may be the word `new`.
pub open spec fn options(args: Seq<Seq<char>>) -> OptionsView {
    options_from(
        OptionsView::default_options(),
        args,
        if args.len() > 1 && args[1] == "new"@ {
            2
        } else {
            1
        },
    )
}

/// What an argument asks for.
enum Flag {
    Command,
    Ip,
    Port,
    Colors,
    SshIp,
    Verbose,
    Unknown,
}

spec fn flag_of(s: Seq<char>) -> Flag {
    if s == "--"@ {
        Flag::Command
    } else if s == "-i"@ {
        Flag::Ip
    } else if s == "-p"@ {
        Flag::Port
    } else if s == "-c"@ {
        Flag::Colors
    } else if s == "-s"@ {
        Flag::SshIp
    } else if s == "-v"@ {
        Flag::Verbose
    } else {
        Flag::Unknown
    }
}

fn read_flag(s: &str) -> (flag: Flag)
    ensures
        flag == flag_of(s@),
{
    if same_text(s, "--") {
        Flag::Command
    } else if same_text(s, "-i") {
        Flag::Ip
    } else if same_text(s, "-p") {
        Flag::Port
    } else if same_text(s, "-c") {
        Flag::Colors
    } else if same_text(s, "-s") {
        Flag::SshIp
    } else if same_text(s, "-v") {
        Flag::Verbose
    } else {
        Flag::Unknown
    }
}

/// Copies of the texts from `start` on.
fn texts_from(args: &Vec<String>, start: usize) -> (out: Vec<String>)
    requires
        start <= args@.len(),
    ensures
        text_views(out@) == text_views(args@).skip(start as int),
{
    let mut out: Vec<String> = Vec::new();
    let mut i: usize = start;
    while i < args.len()
        invariant
            start <= i <= args@.len(),
            out@.len() == i - start,
            forall|j: int| 0 <= j < out@.len() ==> (#[trigger] out@[j])@ == args@[start + j]@,
        decreases args@.len() - i,
    {
        out.push(args[i].clone());
        i = i + 1;
    }
    assert(text_views(out@) =~= text_views(args@).skip(start as int));
    out
}

/// What the arguments ask for.
pub fn parse_args(args: &Vec<String>) -> (o: Options)
    ensures
        o@ == options(text_views(args@)),
{
    let ghost all = text_views(args@);
    let mut o = Options {
        desired_ip: None,
        desired_port: None,
        colors: 0,
        verbose: false,
        use_ssh_ip: false,
        command: None,
    };
    let mut i: usize = 1;
    if args.len() > 1 && same_text(args[1].as_str(), "new") {
        i = 2;
    }
    assert(args@.len() > 1 ==> all[1] == args@[1]@);
    while i < args.len()
        invariant
            all == text_views(args@),
            options(all) == options_from(o@, all, i as int),
            i <= args@.len() || i == 1,
        decreases args@.len() - i,
    {
        assert(all[i as int] == args@[i as int]@);
        assert(i + 1 < args@.len() ==> all[i + 1] == args@[i + 1]@);
        let has_value = i + 1 < args.len();
        match read_flag(args[i].as_str()) {
            Flag::Command => {
                if has_value {
                    o.command = Some(texts_from(args, i + 1));
                }
                return o;
            },
            Flag::Ip => {
                if !has_value {
                    return o;
                }
                o.desired_ip = Some(args[i + 1].clone());
                i = i + 2;
            },
            Flag::Port => {
                if !has_value {
                    return o;
                }
                o.desired_port = Some(args[i + 1].clone());
                i = i + 2;
            },
            Flag::Colors => {
                if !has_value {
                    return o;
                }
                o.colors = match parse_i32(args[i + 1].as_str()) {
                    Some(colors) => colors,
                    None => 0,
                };
                i = i + 2;
            },
            Flag::SshIp => {
                o.use_ssh_ip = true;
                i = i + 1;
            },
            Flag::Verbose => {
                o.verbose = true;
                i = i + 1;
            },
            Flag::Unknown => {
                i = i + 1;
            },
        }
    }
    o
}

/// Whether a character is white space.
pub open spec fn is_space(c: char) -> bool {
    let n = c as u32;
    9 <= n <= 13 || n == 0x20 || n == 0x85 || n == 0xa0 || n == 0x1680 || 0x2000 <= n <= 0x200a
        || n == 0x2028 || n == 0x2029 || n == 0x202f || n == 0x205f || n == 0x3000
}

/// Whether a character is white space.
pub fn white_space(c: char) -> (r: bool)
    ensures
        r == is_space(c),
{
    let n: u32 = c as u32;
    (9 <= n && n <= 13) || n == 0x20 || n == 0x85 || n == 0xa0 || n == 0x1680 || (0x2000 <= n && n
        <= 0x200a) || n == 0x2028 || n == 0x2029 || n == 0x202f || n == 0x205f || n == 0x3000
}

/// How many characters before the first white space, or in all.
pub open spec fn word_len(s: Seq<char>) -> nat
    decreases s.len(),
{
    if s.len() == 0 || is_space(s[0]) {
        0
    } else {
        1 + word_len(s.skip(1))
    }
}

/// The words of a text: what is between white space.
pub open spec fn words(s: Seq<char>) -> Seq<Seq<char>>
    decreases s.len(),
{
    if s.len() == 0 {
        Seq::empty()
    } else if is_space(s[0]) {
        words(s.skip(1))
    } else {
        proof {
            lemma_word_len(s);
        }
        seq![s.take(word_len(s) as int)] + words(s.skip(word_len(s) as int))
    }
}

/// A word is no longer than the text that it starts.
pub proof fn lemma_word_len(s: Seq<char>)
    ensures
        word_len(s) <= s.len(),
    decreases s.len(),
{
    if s.len() > 0 && !is_space(s[0]) {
        lemma_word_len(s.skip(1));
    }
}

/// The word that starts at or after `start`: where it starts and where it ends.
fn next_word(s: &str, start: usize) -> (r: Option<(usize, usize)>)
    requires
        start <= s@.len(),
    ensures
        r is None ==> words(s@.skip(start as int)).len() == 0,
        r matches Some((from, to)) ==> start <= from < to <= s@.len() && words(
            s@.skip(start as int),
        ) == seq![s@.subrange(from as int, to as int)] + words(s@.skip(to as int)),
{
    let n: usize = s.unicode_len();
    let mut from: usize = start;
    while from < n && white_space(s.get_char(from))
        invariant
            n == s@.len(),
            start <= from <= n,
            words(s@.skip(start as int)) == words(s@.skip(from as int)),
        decreases n - from,
    {
        assert(s@.skip(from as int).skip(1) =~= s@.skip(from + 1));
        assert(s@.skip(from as int)[0] == s@[from as int]);
        from = from + 1;
    }
    if from >= n {
        assert(s@.skip(from as int).len() == 0);
        return None;
    }
    let ghost rest = s@.skip(from as int);
    assert(rest[0] == s@[from as int]);
    let mut to: usize = from;
    while to < n && !white_space(s.get_char(to))
        invariant
            n == s@.len(),
            rest == s@.skip(from as int),
            from <= to <= n,
            word_len(rest) == (to - from) + word_len(s@.skip(to as int)),
        decreases n - to,
    {
        assert(s@.skip(to as int).skip(1) =~= s@.skip(to + 1));
        assert(s@.skip(to as int)[0] == s@[to as int]);
        to = to + 1;
    }
    proof {
        let after = s@.skip(to as int);
        if to < n {
            assert(after[0] == s@[to as int]);
        }
        assert(word_len(after) == 0);
        lemma_word_len(rest);
        assert(word_len(rest) == to - from);
        assert(to > from);
        assert(rest.take(to - from) =~= s@.subrange(from as int, to as int));
        assert(rest.skip(to - from) =~= after);
    }
    Some((from, to))
}

/// An address without what marks it as IPv4 within IPv6.
pub open spec fn plain_ip(ip: Seq<char>) -> Seq<char> {
    let prefix = "::ffff:"@;
    if ip.len() >= prefix.len() && ip.take(prefix.len() as int) == prefix {
        ip.skip(prefix.len() as int)
    } else {
        ip
    }
}

/// The address of the server in what `ssh` tells of its connection: its third
/// word, if it has one.
pub open spec fn ssh_address(connection: Option<Seq<char>>) -> Option<Seq<char>> {
    match connection {
        Some(s) => if words(s).len() >= 3 {
            Some(plain_ip(words(s)[2]))
        } else {
            None
        },
        None => None,
    }
}

/// An address without what marks it as IPv4 within IPv6.
fn strip_mapping(ip: &str) -> (plain: String)
    ensures
        plain@ == plain_ip(ip@),
{
    let n: usize = ip.unicode_len();
    proof {
        reveal_strlit("::ffff:");
    }
    if n >= 7 {
        let head = ip.substring_char(0, 7);
        assert(head@ =~= ip@.take(7));
        if same_text(head, "::ffff:") {
            let rest = ip.substring_char(7, n);
            assert(rest@ =~= ip@.skip(7));
            return rest.to_owned();
        }
    }
    ip.to_owned()
}

/// The content of an optional borrowed text.
pub open spec fn borrowed_view(s: Option<&str>) -> Option<Seq<char>> {
    match s {
        Some(s) => Some(s@),
        None => None,
    }
}

/// The address of the server in what `ssh` tells of its connection.
pub fn ssh_ip(connection: Option<&str>) -> (ip: Option<String>)
    ensures
        text_view(ip) == ssh_address(borrowed_view(connection)),
{
    let s = match connection {
        Some(s) => s,
        None => return None,
    };
    assert(s@.skip(0) =~= s@);
    let (_, first_end) = match next_word(s, 0) {
        Some(word) => word,
        None => return None,
    };
    let (_, second_end) = match next_word(s, first_end) {
        Some(word) => word,
        None => return None,
    };
    let (from, to) = match next_word(s, second_end) {
        Some(word) => word,
        None => return None,
    };
    let word = s.substring_char(from, to);
    assert(words(s@)[2] == word@);
    Some(strip_mapping(word))
}

/// The address to listen on: that of `ssh`'s connection, if it is asked for, or
/// else the one that is given.
pub fn chosen_ip(o: &Options, ssh_connection: Option<&str>) -> (ip: Option<String>)
    ensures
        text_view(ip) == if o@.use_ssh_ip {
            ssh_address(borrowed_view(ssh_connection))
        } else {
            o@.desired_ip
        },
{
    if o.use_ssh_ip {
        ssh_ip(ssh_connection)
    } else {
        match &o.desired_ip {
            Some(ip) => Some(ip.clone()),
            None => None,
        }
    }
}

/// What follows the last slash of a path, or all of it.
pub open spec fn base_name(path: Seq<char>) -> Seq<char>
    decreases path.len(),
{
    if path.len() == 0 || path.last() == '/' {
        Seq::empty()
    } else {
        base_name(path.drop_last()).push(path.last())
    }
}

/// What follows the last slash of a path, or all of it.
fn base_of(path: &str) -> (name: String)
    ensures
        name@ == base_name(path@),
{
    let n: usize = path.unicode_len();
    let mut start: usize = 0;
    let mut i: usize = 0;
    assert(path@.take(0) =~= Seq::empty());
    while i < n
        invariant
            n == path@.len(),
            start <= i <= n,
            base_name(path@.take(i as int)) == path@.subrange(start as int, i as int),
        decreases n - i,
    {
        proof {
            let longer = path@.take(i + 1);
            assert(longer.drop_last() =~= path@.take(i as int));
            assert(longer.last() == path@[i as int]);
        }
        let ghost before = start;
        if path.get_char(i) == '/' {
            start = i + 1;
        }
        proof {
            if before == start {
                assert(path@.subrange(start as int, i + 1) =~= path@.subrange(
                    start as int,
                    i as int,
                ).push(path@[i as int]));
            } else {
                assert(path@.subrange(start as int, i + 1) =~= Seq::empty());
            }
        }
        i = i + 1;
    }
    assert(path@.take(i as int) =~= path@);
    path.substring_char(start, n).to_owned()
}

/// What to run in the terminal, and whether to greet the user: the command that
/// is asked for, without a greeting, or else a login shell, with one.
pub fn chosen_command(o: &Options, shell: Option<&str>) -> (r: (Vec<String>, bool))
    ensures
        text_views(r.0@) == match o@.command {
            Some(command) => command,
            None => login_shell(borrowed_view(shell)),
        },
        r.1 == o@.command is None,
{
    if let Some(command) = &o.command {
        let copy = texts_from(command, 0);
        assert(text_views(command@).skip(0) =~= text_views(command@));
        return (copy, false);
    }
    let path = match shell {
        Some(path) => path,
        None => "/bin/sh",
    };
    let mut name = "-".to_owned();
    name.append(base_of(path).as_str());
    let mut command: Vec<String> = Vec::new();
    command.push(path.to_owned());
    command.push(name);
    assert(text_views(command@) =~= login_shell(borrowed_view(shell)));
    (command, true)
}

/// A login shell: its path, and its name with a dash before it.
pub open spec fn login_shell(shell: Option<Seq<char>>) -> Seq<Seq<char>> {
    let path = match shell {
        Some(path) => path,
        None => "/bin/sh"@,
    };
    seq![path, "-"@ + base_name(path)]
}

/// What follows the last slash holds no slash, and is where the path ends.
pub proof fn law_base_name(path: Seq<char>)
    ensures
        !base_name(path).contains('/'),
        base_name(path).len() <= path.len(),
        path.skip(path.len() - base_name(path).len()) == base_name(path),
        base_name(path).len() < path.len() ==> path[path.len() - base_name(path).len() - 1] == '/',
    decreases path.len(),
{
    if path.len() > 0 && path.last() != '/' {
        let shorter = path.drop_last();
        law_base_name(shorter);
        let name = base_name(path);
        let k = path.len() - name.len();
        assert forall|i: int| 0 <= i < name.len() implies name[i] != '/' by {
            if i < name.len() - 1 {
                assert(base_name(shorter).contains(base_name(shorter)[i]));
            }
        }
        assert(path.skip(k) =~= name) by {
            assert(shorter.skip(shorter.len() - base_name(shorter).len()) =~= base_name(shorter));
            assert forall|i: int| 0 <= i < name.len() implies path.skip(k)[i] == name[i] by {
                if i < name.len() - 1 {
                    assert(shorter.skip(k)[i] == base_name(shorter)[i]);
                }
            }
        }
    } else {
        assert(path.skip(path.len() as int) =~= Seq::empty());
    }
}

/// Among the characters of ASCII, white space is the blank and those from the tab to
/// the carriage return.
pub proof fn law_white_space_of_ascii(c: char)
    requires
        (c as u32) < 0x80,
    ensures
        is_space(c) <==> c == ' ' || ('\t' <= c && c <= '\r'),
{
}

/// A text without white space is one word, if it is not empty; white space parts what
/// is before it from what is after it, and is in no word. This says what the words of
/// any text are.
pub proof fn law_words(a: Seq<char>, c: char, b: Seq<char>)
    requires
        is_space(c),
    ensures
        words(a + seq![c] + b) == words(a) + words(b),
        a.len() > 0 && (forall|i: int| 0 <= i < a.len() ==> !is_space(#[trigger] a[i])) ==> words(a)
            == seq![a],
        words(Seq::empty()) == Seq::<Seq<char>>::empty(),
{
    lemma_words_part(a, c, b);
    if a.len() > 0 && (forall|i: int| 0 <= i < a.len() ==> !is_space(#[trigger] a[i])) {
        lemma_one_word(a);
        assert(a.take(a.len() as int) =~= a);
        let none = a.skip(a.len() as int);
        assert(none.len() == 0);
        assert(!is_space(a[0]));
        assert(words(a) == seq![a] + words(none));
        assert(words(a) =~= seq![a]);
    }
}

proof fn lemma_one_word(a: Seq<char>)
    requires
        forall|i: int| 0 <= i < a.len() ==> !is_space(#[trigger] a[i]),
    ensures
        word_len(a) == a.len(),
    decreases a.len(),
{
    if a.len() > 0 {
        let rest = a.skip(1);
        assert forall|i: int| 0 <= i < rest.len() implies !is_space(#[trigger] rest[i]) by {
            assert(rest[i] == a[i + 1]);
        }
        lemma_one_word(rest);
    }
}

proof fn lemma_word_ends(a: Seq<char>, c: char, b: Seq<char>)
    requires
        is_space(c),
    ensures
        word_len(a + seq![c] + b) == word_len(a),
    decreases a.len(),
{
    let s = a + seq![c] + b;
    if a.len() == 0 {
        assert(s[0] == c);
    } else {
        assert(s[0] == a[0]);
        assert(s.skip(1) =~= a.skip(1) + seq![c] + b);
        lemma_word_ends(a.skip(1), c, b);
    }
}

proof fn lemma_words_part(a: Seq<char>, c: char, b: Seq<char>)
    requires
        is_space(c),
    ensures
        words(a + seq![c] + b) == words(a) + words(b),
    decreases a.len(),
{
    let s = a + seq![c] + b;
    if a.len() == 0 {
        assert(s[0] == c);
        assert(s.skip(1) =~= b);
        assert(words(a) + words(b) =~= words(b));
    } else if is_space(a[0]) {
        assert(s[0] == a[0]);
        assert(s.skip(1) =~= a.skip(1) + seq![c] + b);
        lemma_words_part(a.skip(1), c, b);
    } else {
        assert(s[0] == a[0]);
        lemma_word_ends(a, c, b);
        lemma_word_len(a);
        let n = word_len(a) as int;
        assert(s.take(n) =~= a.take(n));
        assert(s.skip(n) =~= a.skip(n) + seq![c] + b);
        lemma_words_part(a.skip(n), c, b);
        assert(words(s) =~= words(a) + words(b));
    }
}

/// What marks an address as IPv4 within IPv6 is taken off it, once, and no other
/// address is changed.
pub proof fn law_mapping_is_taken_off(ip: Seq<char>)
    ensures
        plain_ip("::ffff:"@ + ip) == ip,
        plain_ip(ip) == ip || "::ffff:"@ + plain_ip(ip) == ip,
        plain_ip(ip) == ip ==> ip.len() < 7 || ip.take(7) != "::ffff:"@,
{
    reveal_strlit("::ffff:");
    let mapped = "::ffff:"@ + ip;
    assert(mapped.take(7) =~= "::ffff:"@);
    assert(mapped.skip(7) =~= ip);
    if ip.len() >= 7 && ip.take(7) == "::ffff:"@ {
        assert("::ffff:"@ + ip.skip(7) =~= ip);
        assert(plain_ip(ip).len() == ip.len() - 7);
    }
}

/// The address of the server is what comes third in what `ssh` tells: after the
/// client's address and port, each followed by white space, and before any more.
/// Where there are no three words, there is none.
pub proof fn law_third_word_is_the_address(
    client: Seq<char>,
    port: Seq<char>,
    ip: Seq<char>,
    more: Seq<char>,
    c: char,
)
    requires
        is_space(c),
        words(client) == seq![client],
        words(port) == seq![port],
        words(ip) == seq![ip],
    ensures
        ssh_address(
            Some(client + seq![c] + (port + seq![c] + (ip + seq![c] + more))),
        ) == Some(plain_ip(ip)),
        ssh_address(Some(client + seq![c] + (port + seq![c] + ip))) == Some(plain_ip(ip)),
        ssh_address(Some(client + seq![c] + port)) is None,
        ssh_address(None) is None,
{
    let tail = ip + seq![c] + more;
    lemma_words_part(ip, c, more);
    lemma_words_part(port, c, tail);
    lemma_words_part(client, c, port + seq![c] + tail);
    lemma_words_part(port, c, ip);
    lemma_words_part(client, c, port + seq![c] + ip);
    lemma_words_part(client, c, port);
    let all = words(client + seq![c] + (port + seq![c] + tail));
    assert(all[2] == ip);
    assert(words(client + seq![c] + (port + seq![c] + ip))[2] == ip);
}

/// A login shell is started by its path, under the last part of that with a dash
/// before it; without a shell it is `/bin/sh`.
pub proof fn law_login_shell(dir: Seq<char>, name: Seq<char>)
    requires
        !name.contains('/'),
    ensures
        login_shell(Some(dir + seq!['/'] + name)) == seq![
            dir + seq!['/'] + name,
            "-"@ + name,
        ],
        login_shell(Some(name)) == seq![name, "-"@ + name],
        login_shell(None) == login_shell(Some("/bin/sh"@)),
{
    lemma_last_part(dir + seq!['/'], name);
    lemma_last_part(Seq::empty(), name);
    assert(Seq::<char>::empty() + name =~= name);
}

proof fn lemma_last_part(before: Seq<char>, name: Seq<char>)
    requires
        !name.contains('/'),
        before.len() == 0 || before.last() == '/',
    ensures
        base_name(before + name) == name,
    decreases name.len(),
{
    let path = before + name;
    if name.len() == 0 {
        assert(path =~= before);
        assert(base_name(path) =~= name);
    } else {
        let shorter = name.drop_last();
        assert(name.contains(name.last()));
        assert(!shorter.contains('/')) by {
            if shorter.contains('/') {
                let i = choose|i: int| 0 <= i < shorter.len() && shorter[i] == '/';
                assert(name[i] == '/');
            }
        }
        lemma_last_part(before, shorter);
        assert(path.drop_last() =~= before + shorter);
        assert(shorter.push(name.last()) =~= name);
    }
}

/// Where the first option may stand: after the name of the program, and after the
/// word `new`, if that comes first.
pub open spec fn first_place(args: Seq<Seq<char>>) -> int {
    if args.len() > 1 && args[1] == "new"@ {
        2
    } else {
        1
    }
}

/// Whether an option may stand at `i`, given that one may at `from`: places follow
/// each other, but what follows an option that takes a value is its value, and
/// what follows two dashes is the command.
pub open spec fn leads_to(args: Seq<Seq<char>>, from: int, i: int) -> bool
    decreases i - from + 1,
{
    if from >= i {
        from == i
    } else if args[from] == "--"@ {
        false
    } else if args[from] == "-i"@ || args[from] == "-p"@ || args[from] == "-c"@ {
        leads_to(args, from + 2, i)
    } else {
        leads_to(args, from + 1, i)
    }
}

/// Whether `s` stands at `i` as an option, and not as a value or in the command.
pub open spec fn option_at(args: Seq<Seq<char>>, i: int, s: Seq<char>) -> bool {
    0 <= i < args.len() && leads_to(args, first_place(args), i) && args[i] == s
}

/// Whether `s` stands at `i` as an option with something after it.
pub open spec fn option_with_value_at(args: Seq<Seq<char>>, i: int, s: Seq<char>) -> bool {
    option_at(args, i, s) && i + 1 < args.len()
}

proof fn lemma_options_differ()
    ensures
        "--"@ != "-i"@,
        "--"@ != "-p"@,
        "--"@ != "-c"@,
        "--"@ != "-s"@,
        "--"@ != "-v"@,
        "-i"@ != "-p"@,
        "-i"@ != "-c"@,
        "-i"@ != "-s"@,
        "-i"@ != "-v"@,
        "-p"@ != "-c"@,
        "-p"@ != "-s"@,
        "-p"@ != "-v"@,
        "-c"@ != "-s"@,
        "-c"@ != "-v"@,
        "-s"@ != "-v"@,
{
    reveal_strlit("--");
    reveal_strlit("-i");
    reveal_strlit("-p");
    reveal_strlit("-c");
    reveal_strlit("-s");
    reveal_strlit("-v");
    assert("--"@[1] == '-' && "-i"@[1] == 'i' && "-p"@[1] == 'p');
    assert("-c"@[1] == 'c' && "-s"@[1] == 's' && "-v"@[1] == 'v');
}

proof fn lemma_leads_on(args: Seq<Seq<char>>, a: int, b: int, c: int)
    requires
        leads_to(args, a, b),
        leads_to(args, b, c),
    ensures
        leads_to(args, a, c),
    decreases b - a,
{
    if a < b {
        if args[a] == "-i"@ || args[a] == "-p"@ || args[a] == "-c"@ {
            lemma_leads_to_forward(args, a + 2, b);
            lemma_leads_on(args, a + 2, b, c);
        } else {
            lemma_leads_on(args, a + 1, b, c);
        }
        lemma_leads_to_forward(args, b, c);
    }
}

proof fn lemma_leads_to_forward(args: Seq<Seq<char>>, a: int, b: int)
    requires
        leads_to(args, a, b),
    ensures
        a <= b,
{
}

/// What is asked for up to a place where an option may stand.
proof fn lemma_up_to(o: OptionsView, args: Seq<Seq<char>>, from: int, i: int) -> (so_far:
    OptionsView)
    requires
        0 <= from,
        i < args.len(),
        leads_to(args, from, i),
    ensures
        options_from(o, args, from) == options_from(so_far, args, i),
    decreases i - from,
{
    if from >= i {
        o
    } else if args[from] == "-i"@ {
        lemma_leads_to_forward(args, from + 2, i);
        lemma_up_to(OptionsView { desired_ip: Some(args[from + 1]), ..o }, args, from + 2, i)
    } else if args[from] == "-p"@ {
        lemma_leads_to_forward(args, from + 2, i);
        lemma_up_to(OptionsView { desired_port: Some(args[from + 1]), ..o }, args, from + 2, i)
    } else if args[from] == "-c"@ {
        lemma_leads_to_forward(args, from + 2, i);
        lemma_up_to(OptionsView { colors: colors_of(args[from + 1]), ..o }, args, from + 2, i)
    } else if args[from] == "-s"@ {
        lemma_up_to(OptionsView { use_ssh_ip: true, ..o }, args, from + 1, i)
    } else if args[from] == "-v"@ {
        lemma_up_to(OptionsView { verbose: true, ..o }, args, from + 1, i)
    } else {
        lemma_up_to(o, args, from + 1, i)
    }
}

/// Whether `s` stands as an option with something after it anywhere from `from` on.
spec fn value_from(args: Seq<Seq<char>>, from: int, s: Seq<char>) -> bool {
    exists|j: int| #[trigger] leads_to(args, from, j) && j + 1 < args.len() && args[j] == s
}

/// Whether `s` stands as an option anywhere from `from` on.
spec fn flag_from(args: Seq<Seq<char>>, from: int, s: Seq<char>) -> bool {
    exists|j: int| #[trigger] leads_to(args, from, j) && j < args.len() && args[j] == s
}

proof fn lemma_next_place(args: Seq<Seq<char>>, from: int, next: int, s: Seq<char>)
    requires
        leads_to(args, from, next),
    ensures
        value_from(args, next, s) ==> value_from(args, from, s),
        flag_from(args, next, s) ==> flag_from(args, from, s),
{
    if value_from(args, next, s) {
        let j = choose|j: int| #[trigger]
            leads_to(args, next, j) && j + 1 < args.len() && args[j] == s;
        lemma_leads_on(args, from, next, j);
    }
    if flag_from(args, next, s) {
        let j = choose|j: int| #[trigger]
            leads_to(args, next, j) && j < args.len() && args[j] == s;
        lemma_leads_on(args, from, next, j);
    }
}

/// What no further argument asks for stays as it is.
proof fn lemma_rest(o: OptionsView, args: Seq<Seq<char>>, from: int)
    requires
        0 <= from,
    ensures
        !value_from(args, from, "-i"@) ==> options_from(o, args, from).desired_ip == o.desired_ip,
        !value_from(args, from, "-p"@) ==> options_from(o, args, from).desired_port
            == o.desired_port,
        !value_from(args, from, "-c"@) ==> options_from(o, args, from).colors == o.colors,
        !value_from(args, from, "--"@) ==> options_from(o, args, from).command == o.command,
        options_from(o, args, from).use_ssh_ip == (o.use_ssh_ip || flag_from(args, from, "-s"@)),
        options_from(o, args, from).verbose == (o.verbose || flag_from(args, from, "-v"@)),
    decreases args.len() - from,
{
    lemma_options_differ();
    assert(leads_to(args, from, from));
    if from >= args.len() {
        lemma_nothing_from(args, from, "-s"@);
        lemma_nothing_from(args, from, "-v"@);
    } else if args[from] == "--"@ {
        lemma_nothing_else(args, from, "-s"@);
        lemma_nothing_else(args, from, "-v"@);
    } else {
        let takes = args[from] == "-i"@ || args[from] == "-p"@ || args[from] == "-c"@;
        let next = if takes {
            from + 2
        } else {
            from + 1
        };
        assert(leads_to(args, next, next));
        assert(leads_to(args, from, next));
        lemma_next_place(args, from, next, "-i"@);
        lemma_next_place(args, from, next, "-p"@);
        lemma_next_place(args, from, next, "-c"@);
        lemma_next_place(args, from, next, "--"@);
        lemma_next_place(args, from, next, "-s"@);
        lemma_next_place(args, from, next, "-v"@);
        lemma_here_or_later(args, from, next, "-s"@);
        lemma_here_or_later(args, from, next, "-v"@);
        if takes && from + 1 >= args.len() {
            lemma_nothing_from(args, next, "-s"@);
            lemma_nothing_from(args, next, "-v"@);
        } else if args[from] == "-i"@ {
            lemma_rest(OptionsView { desired_ip: Some(args[from + 1]), ..o }, args, next);
        } else if args[from] == "-p"@ {
            lemma_rest(OptionsView { desired_port: Some(args[from + 1]), ..o }, args, next);
        } else if args[from] == "-c"@ {
            lemma_rest(OptionsView { colors: colors_of(args[from + 1]), ..o }, args, next);
        } else if args[from] == "-s"@ {
            lemma_rest(OptionsView { use_ssh_ip: true, ..o }, args, next);
        } else if args[from] == "-v"@ {
            lemma_rest(OptionsView { verbose: true, ..o }, args, next);
        } else {
            lemma_rest(o, args, next);
        }
    }
}

proof fn lemma_nothing_from(args: Seq<Seq<char>>, from: int, s: Seq<char>)
    requires
        from >= args.len(),
    ensures
        !flag_from(args, from, s),
{
    if flag_from(args, from, s) {
        let j = choose|j: int| #[trigger]
            leads_to(args, from, j) && j < args.len() && args[j] == s;
        lemma_leads_to_forward(args, from, j);
    }
}

proof fn lemma_nothing_else(args: Seq<Seq<char>>, from: int, s: Seq<char>)
    requires
        0 <= from < args.len(),
        args[from] == "--"@,
        s != "--"@,
    ensures
        !flag_from(args, from, s),
{
    if flag_from(args, from, s) {
        let j = choose|j: int| #[trigger]
            leads_to(args, from, j) && j < args.len() && args[j] == s;
        lemma_leads_to_forward(args, from, j);
    }
}

proof fn lemma_here_or_later(args: Seq<Seq<char>>, from: int, next: int, s: Seq<char>)
    requires
        0 <= from < args.len(),
        args[from] != "--"@,
        next == if args[from] == "-i"@ || args[from] == "-p"@ || args[from] == "-c"@ {
            from + 2
        } else {
            from + 1
        },
    ensures
        args[from] != s && flag_from(args, from, s) ==> flag_from(args, next, s),
{
    if args[from] != s && flag_from(args, from, s) {
        let j = choose|j: int| #[trigger]
            leads_to(args, from, j) && j < args.len() && args[j] == s;
        lemma_leads_to_forward(args, from, j);
        assert(leads_to(args, next, j));
    }
}

/// Two dashes where an option may stand, with something after them, are followed
/// by the command: all that comes after them, be it one word or many. Without
/// such there is no command.
pub proof fn law_command_is_taken_whole(args: Seq<Seq<char>>, k: int)
    ensures
        option_with_value_at(args, k, "--"@) ==> options(args).command == Some(args.skip(k + 1)),
        (forall|j: int| !option_with_value_at(args, j, "--"@)) ==> options(args).command is None,
{
    let first = first_place(args);
    if option_with_value_at(args, k, "--"@) {
        let o = lemma_up_to(OptionsView::default_options(), args, first, k);
    }
    if forall|j: int| !option_with_value_at(args, j, "--"@) {
        assert forall|j: int| !(#[trigger] leads_to(args, first, j) && j + 1 < args.len() && args[j]
            == "--"@) by {
            if leads_to(args, first, j) {
                lemma_leads_to_forward(args, first, j);
                assert(!option_with_value_at(args, j, "--"@));
            }
        }
        lemma_rest(OptionsView::default_options(), args, first);
    }
}

/// Of several options of a kind that take a value, the last one counts, with what
/// stands right after it; without any, nothing is asked for.
pub proof fn law_last_value_counts(args: Seq<Seq<char>>, k: int)
    ensures
        ({
            let last = |s: Seq<char>|
                option_with_value_at(args, k, s) && forall|j: int|
                    j > k ==> !option_with_value_at(args, j, s);
            let none = |s: Seq<char>| forall|j: int| !option_with_value_at(args, j, s);
            &&& last("-i"@) ==> options(args).desired_ip == Some(args[k + 1])
            &&& last("-p"@) ==> options(args).desired_port == Some(args[k + 1])
            &&& last("-c"@) ==> options(args).colors == colors_of(args[k + 1])
            &&& none("-i"@) ==> options(args).desired_ip is None
            &&& none("-p"@) ==> options(args).desired_port is None
            &&& none("-c"@) ==> options(args).colors == 0
        }),
{
    let first = first_place(args);
    lemma_options_differ();
    lemma_rest(OptionsView::default_options(), args, first);
    lemma_values_are_options(args, first, "-i"@);
    lemma_values_are_options(args, first, "-p"@);
    lemma_values_are_options(args, first, "-c"@);
    if 0 <= k && k + 1 < args.len() && leads_to(args, first, k) && (args[k] == "-i"@ || args[k]
        == "-p"@ || args[k] == "-c"@) {
        let o = lemma_up_to(OptionsView::default_options(), args, first, k);
        assert(leads_to(args, k + 2, k + 2));
        assert(leads_to(args, k, k + 2));
        lemma_leads_on(args, first, k, k + 2);
        lemma_values_after(args, first, k, "-i"@);
        lemma_values_after(args, first, k, "-p"@);
        lemma_values_after(args, first, k, "-c"@);
        if args[k] == "-i"@ {
            lemma_rest(OptionsView { desired_ip: Some(args[k + 1]), ..o }, args, k + 2);
        } else if args[k] == "-p"@ {
            lemma_rest(OptionsView { desired_port: Some(args[k + 1]), ..o }, args, k + 2);
        } else {
            lemma_rest(OptionsView { colors: colors_of(args[k + 1]), ..o }, args, k + 2);
        }
    }
}

proof fn lemma_values_are_options(args: Seq<Seq<char>>, first: int, s: Seq<char>)
    requires
        first == first_place(args),
    ensures
        (forall|j: int| !option_with_value_at(args, j, s)) ==> !value_from(args, first, s),
{
    if value_from(args, first, s) {
        let j = choose|j: int| #[trigger]
            leads_to(args, first, j) && j + 1 < args.len() && args[j] == s;
        lemma_leads_to_forward(args, first, j);
        assert(option_with_value_at(args, j, s));
    }
}

proof fn lemma_values_after(args: Seq<Seq<char>>, first: int, k: int, s: Seq<char>)
    requires
        first == first_place(args),
        leads_to(args, first, k + 2),
        k >= 0,
    ensures
        (forall|j: int| j > k ==> !option_with_value_at(args, j, s)) ==> !value_from(
            args,
            k + 2,
            s,
        ),
{
    if value_from(args, k + 2, s) {
        let j = choose|j: int| #[trigger]
            leads_to(args, k + 2, j) && j + 1 < args.len() && args[j] == s;
        lemma_leads_to_forward(args, k + 2, j);
        lemma_leads_on(args, first, k + 2, j);
        assert(option_with_value_at(args, j, s));
    }
}

/// An option without a value counts wherever it stands.
pub proof fn law_flags_count_anywhere(args: Seq<Seq<char>>)
    ensures
        options(args).use_ssh_ip <==> exists|j: int| option_at(args, j, "-s"@),
        options(args).verbose <==> exists|j: int| option_at(args, j, "-v"@),
{
    let first = first_place(args);
    lemma_rest(OptionsView::default_options(), args, first);
    lemma_flags_are_options(args, first, "-s"@);
    lemma_flags_are_options(args, first, "-v"@);
}

proof fn lemma_flags_are_options(args: Seq<Seq<char>>, first: int, s: Seq<char>)
    requires
        first == first_place(args),
    ensures
        flag_from(args, first, s) <==> exists|j: int| option_at(args, j, s),
{
    if flag_from(args, first, s) {
        let j = choose|j: int| #[trigger]
            leads_to(args, first, j) && j < args.len() && args[j] == s;
        lemma_leads_to_forward(args, first, j);
        assert(option_at(args, j, s));
    }
    if exists|j: int| option_at(args, j, s) {
        let j = choose|j: int| option_at(args, j, s);
        assert(leads_to(args, first, j));
    }
}

/// A number of colors in decimal is that number, with or without a sign; a text
/// that is no number, or is one of more than 32 bits, asks for none.
pub proof fn law_colors_in_decimal(n: nat)
    ensures
        n <= i32::MAX ==> colors_of(text::decimal(n)) == n,
        n <= i32::MAX ==> colors_of(seq!['+'] + text::decimal(n)) == n,
        n <= 0x8000_0000 ==> colors_of(seq!['-'] + text::decimal(n)) == -n,
        n > i32::MAX ==> colors_of(text::decimal(n)) == 0,
{
    let s = text::decimal(n);
    text::law_decimal_reads_back(n);
    assert(text::is_digit(s[0]));
    assert((seq!['+'] + s).skip(1) =~= s);
    assert((seq!['-'] + s).skip(1) =~= s);
}

} // verus!
