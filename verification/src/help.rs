//! The command catalogue: one entry per command with its aliases, usage and
//! examples, and lookup of an entry by name or alias. Rendering the entries
//! is left to the caller.

use vstd::prelude::*;
use vstd::string::StringSliceAdditionalSpecFns;

verus! {

/// One command's help entry.
#[derive(Clone, Copy, Debug)]
pub struct CommandHelp {
    pub name: &'static str,
    pub aliases: &'static [&'static str],
    pub short_desc: &'static str,
    pub long_desc: &'static str,
    pub usage: &'static str,
    pub examples: &'static [&'static str],
}

/// The entry answers to the given name: the name is the entry's own name or
/// one of its aliases (compared byte for byte).
pub open spec fn entry_matches(c: CommandHelp, nb: Seq<u8>) -> bool {
    ||| c.name.spec_bytes() == nb
    ||| exists|j: int|
        0 <= j < c.aliases@.len() && (#[trigger] c.aliases@[j]).spec_bytes() == nb
}

/// The command names of the catalogue, in display order.
pub open spec fn catalogue_names() -> Seq<Seq<u8>> {
    seq![
        "display".spec_bytes(),
        "subnets".spec_bytes(),
        "get-subnet".spec_bytes(),
        "same-subnet".spec_bytes(),
        "check-ip".spec_bytes(),
        "check-mask".spec_bytes(),
        "find-range".spec_bytes(),
        "help".spec_bytes(),
    ]
}

/// The aliases of each catalogue entry, in display order.
pub open spec fn catalogue_aliases() -> Seq<Seq<Seq<u8>>> {
    seq![
        seq!["".spec_bytes()],
        seq!["-s".spec_bytes(), "--subnets".spec_bytes()],
        seq!["--get-subnet".spec_bytes()],
        seq!["-same".spec_bytes(), "--same-subnet".spec_bytes()],
        seq!["-cip".spec_bytes(), "--check-ip".spec_bytes()],
        seq!["-cmask".spec_bytes(), "--check-mask".spec_bytes()],
        seq!["-fr".spec_bytes(), "--find-range".spec_bytes()],
        seq!["-h".spec_bytes(), "--help".spec_bytes()],
    ]
}

/// The query names catalogue entry `k`: it equals the entry's name or one of
/// its aliases.
pub open spec fn catalogue_matches_at(k: int, nb: Seq<u8>) -> bool
    recommends
        0 <= k < catalogue_names().len(),
{
    catalogue_names()[k] == nb || catalogue_aliases()[k].contains(nb)
}

/// Byte-for-byte equality of two byte slices.
fn bytes_eq(x: &[u8], y: &[u8]) -> (res: bool)
    ensures
        res == (x@ == y@),
{
    if x.len() != y.len() {
        return false;
    }
    let mut i: usize = 0;
    while i < x.len()
        invariant
            i <= x@.len(),
            x@.len() == y@.len(),
            forall|j: int| 0 <= j < i ==> x@[j] == y@[j],
        decreases x@.len() - i,
    {
        if x[i] != y[i] {
            return false;
        }
        i = i + 1;
    }
    proof {
        assert(x@ =~= y@);
    }
    true
}

/// Byte-for-byte equality of two strings.
fn str_bytes_eq(a: &str, b: &str) -> (res: bool)
    ensures
        res == (a.spec_bytes() == b.spec_bytes()),
{
    bytes_eq(a.as_bytes(), b.as_bytes())
}

impl CommandHelp {
    /// The full command catalogue, in display order.
    pub fn get_all() -> (r: Vec<CommandHelp>)
        ensures
            r@.len() == 8,
            r@[0].name@ == "display"@,
            r@[1].name@ == "subnets"@,
            r@[2].name@ == "get-subnet"@,
            r@[3].name@ == "same-subnet"@,
            r@[4].name@ == "check-ip"@,
            r@[5].name@ == "check-mask"@,
            r@[6].name@ == "find-range"@,
            r@[7].name@ == "help"@,
            forall|k: int|
                0 <= k < 8 ==> (#[trigger] r@[k]).name.spec_bytes() == catalogue_names()[k],
            forall|k: int|
                0 <= k < 8 ==> (#[trigger] r@[k]).aliases@.len()
                    == catalogue_aliases()[k].len(),
            forall|k: int, j: int|
                0 <= k < 8 && 0 <= j < catalogue_aliases()[k].len() ==> (#[trigger] r@[
                k].aliases@[j]).spec_bytes() == catalogue_aliases()[k][j],
    {
        let mut all: Vec<CommandHelp> = Vec::new();
        all.push(
            CommandHelp {
                name: "display",
                aliases: &[""],
                short_desc: "Display subnet information",
                long_desc: "Display detailed information about a subnet, including network address, \
                           broadcast address, mask, number of available hosts, and usable IP range.",
                usage: "./ip_calculator <ip>/<cidr> or ./ip_calculator <ip> <mask or cidr>",
                examples: &[
                    "./ip_calculator 192.168.1.0/24",
                    "./ip_calculator 192.168.1.0 255.255.255.0",
                    "./ip_calculator 10.0.0.0 24",
                ],
            },
        );
        all.push(
            CommandHelp {
                name: "subnets",
                aliases: &["-s", "--subnets"],
                short_desc: "Calculate network subnets",
                long_desc: "Divide a network into smaller subnets. The command ensures no subnet overlapping \
                           and provides detailed information for each subnet. Use the -f option to limit the \
                           number of displayed subnets by default 512 if is possible.",
                usage: "./ip_calculator (-s|--subnets) <CIDR> <new_prefix> ([-f <number_of_subnets>]|[-p <page_number>])",
                examples: &[
                    "./ip_calculator -s 192.168.1.0/24 26",
                    "./ip_calculator --subnets 10.0.0.0/8 16 -f 5",
                    "./ip_calculator -s 10.0.0.0/15 30 -p 10",
                ],
            },
        );
        all.push(
            CommandHelp {
                name: "get-subnet",
                aliases: &["--get-subnet"],
                short_desc: "Get a specific subnet by index",
                long_desc: "Retrieve information about a specific subnet by its index after dividing the \
                           network. The index starts at 0 and must be within the range of possible subnets.",
                usage: "./ip_calculator --get-subnet <CIDR> <new_prefix> <index>",
                examples: &[
                    "./ip_calculator --get-subnet 192.168.1.0/24 26 2",
                    "./ip_calculator --get-subnet 10.0.0.0/8 16 5",
                ],
            },
        );
        all.push(
            CommandHelp {
                name: "same-subnet",
                aliases: &["-same", "--same-subnet"],
                short_desc: "Check if IPs are in the same subnet",
                long_desc: "Verify if two IP addresses belong to the same subnet. You can specify different \
                           masks for each IP. If only one mask is provided, it will be used for both IPs.",
                usage: "./ip_calculator (-same|--same-subnet) <IP1> <IP2> <mask1> [mask2]",
                examples: &[
                    "./ip_calculator -same 192.168.1.10 192.168.1.20 255.255.255.0",
                    "./ip_calculator --same-subnet 10.0.0.1 10.0.0.2 255.0.0.0 255.255.0.0",
                ],
            },
        );
        all.push(
            CommandHelp {
                name: "check-ip",
                aliases: &["-cip", "--check-ip"],
                short_desc: "Validate IP address format",
                long_desc: "Check if an IP address is valid according to IPv4 format rules. Each octet \
                           must be between 0 and 255.",
                usage: "./ip_calculator (-cip|--check-ip) <IP>",
                examples: &[
                    "./ip_calculator -cip 192.168.1.1",
                    "./ip_calculator --check-ip 10.0.0.1",
                ],
            },
        );
        all.push(
            CommandHelp {
                name: "check-mask",
                aliases: &["-cmask", "--check-mask"],
                short_desc: "Validate subnet mask",
                long_desc: "Verify if a subnet mask is valid. Can accept both traditional mask format \
                           (e.g., 255.255.255.0) and CIDR notation (e.g., 24).",
                usage: "./ip_calculator (-cmask|--check-mask) <mask|cidr>",
                examples: &[
                    "./ip_calculator -cmask 255.255.255.0",
                    "./ip_calculator --check-mask 24",
                ],
            },
        );
        all.push(
            CommandHelp {
                name: "find-range",
                aliases: &["-fr", "--find-range"],
                short_desc: "Find available IP range",
                long_desc: "Find a continuous range of available IP addresses in a subnet. You can specify \
                           IP addresses to exclude from the search. The command will find the first available \
                           range that meets the size requirement.",
                usage: "./ip_calculator (-fr|--find-range) <CIDR> <range_size> [exclusions...]",
                examples: &[
                    "./ip_calculator -fr 192.168.1.0/24 10",
                    "./ip_calculator --find-range 10.0.0.0/24 5 10.0.0.1 10.0.0.2",
                ],
            },
        );
        all.push(
            CommandHelp {
                name: "help",
                aliases: &["-h", "--help"],
                short_desc: "Display help information",
                long_desc: "Show help information. Use without arguments to see all available commands, \
                           or specify a command name to get detailed help for that command.",
                usage: "./ip_calculator (-h|--help) [command_name]",
                examples: &[
                    "./ip_calculator --help",
                    "./ip_calculator --help subnets",
                ],
            },
        );
        all
    }

    /// Finds the first catalogue entry whose name or one of whose aliases
    /// equals `name`; the lookup fails exactly when no entry matches.
    #[verifier::loop_isolation(false)]
    pub fn find_by_name_or_alias(name: &str) -> (res: Option<CommandHelp>)
        ensures
            res is Some ==> entry_matches(res->0, name.spec_bytes()),
            res is Some ==> exists|k: int|
                0 <= k < 8 && #[trigger] catalogue_matches_at(k, name.spec_bytes()) && (forall|
                    k2: int,
                |
                    0 <= k2 < k ==> !catalogue_matches_at(k2, name.spec_bytes())) && (
                res->0).name.spec_bytes() == catalogue_names()[k],
            res is None ==> forall|k: int|
                0 <= k < 8 ==> !(#[trigger] catalogue_matches_at(k, name.spec_bytes())),
    {
        let ghost nb = name.spec_bytes();
        let all = Self::get_all();
        let mut i: usize = 0;
        while i < all.len()
            invariant
                i <= all@.len(),
                forall|k: int| 0 <= k < i ==> !(#[trigger] catalogue_matches_at(k, nb)),
            decreases all@.len() - i,
        {
            let c = all[i];
            if str_bytes_eq(c.name, name) {
                proof {
                    assert(catalogue_matches_at(i as int, nb));
                }
                return Some(c);
            }
            let mut j: usize = 0;
            while j < c.aliases.len()
                invariant
                    j <= c.aliases@.len(),
                    c == all@[i as int],
                    i < all@.len(),
                    forall|j2: int| 0 <= j2 < j ==> catalogue_aliases()[i as int][j2] != nb,
                decreases c.aliases@.len() - j,
            {
                if str_bytes_eq(c.aliases[j], name) {
                    proof {
                        assert((c.aliases@[j as int]).spec_bytes() == nb);
                        assert(catalogue_aliases()[i as int][j as int] == nb);
                        assert(catalogue_matches_at(i as int, nb));
                    }
                    return Some(c);
                }
                j = j + 1;
            }
            proof {
                let ghost als = catalogue_aliases()[i as int];
                if als.contains(nb) {
                    let j2 = choose|j2: int| 0 <= j2 < als.len() && als[j2] == nb;
                    assert(false);
                }
                assert(!catalogue_matches_at(i as int, nb));
            }
            i = i + 1;
        }
        None
    }
}

} // verus!
