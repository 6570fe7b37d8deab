use vstd::prelude::*;

verus! {

/// Where the server listens and how many workers it runs.
#[derive(Clone, Debug, PartialEq)]
pub struct Server {
    pub thread_count: usize,
    pub listen_address: String,
    pub port: i64,
}

/// A path that the server knows of.
#[derive(Clone, Debug, PartialEq)]
pub struct Location {
    pub path: String,
}

/// The server's configuration.
#[derive(Clone, Debug, PartialEq)]
pub struct Config {
    pub server: Server,
    pub locations: Vec<Location>,
}

/// The character of decimal digit `d`.
pub open spec fn digit_char(d: int) -> char {
    "0123456789"@[d]
}

/// The decimal digits of `n`, most significant first, without leading zeros.
pub open spec fn decimal(n: nat) -> Seq<char>
    decreases n,
{
    if n < 10 {
        seq![digit_char(n as int)]
    } else {
        decimal(n / 10).push(digit_char((n % 10) as int))
    }
}

/// `n` in decimal, with a leading `-` when it is negative.
pub open spec fn signed_decimal(n: int) -> Seq<char> {
    if n < 0 {
        seq!['-'] + decimal((-n) as nat)
    } else {
        decimal(n as nat)
    }
}

/// Appends the decimal digits of `n` to `out`.
fn push_decimal(out: &mut String, n: u64)
    ensures
        final(out)@ == old(out)@ + decimal(n as nat),
    decreases n,
{
    if n >= 10 {
        push_decimal(out, n / 10);
    }
    let digits = "0123456789";
    proof {
        reveal_strlit("0123456789");
    }
    let d = (n % 10) as usize;
    out.append(digits.substring_char(d, d + 1));
    proof {
        assert(digits@.subrange(d as int, d + 1) =~= seq![digit_char(d as int)]);
        if n >= 10 {
            assert(final(out)@ =~= old(out)@ + decimal(n as nat));
        } else {
            assert(final(out)@ =~= old(out)@ + decimal(n as nat));
        }
    }
}

impl Server {
    /// The socket address to bind, written `address:port`.
    pub fn bind_address(&self) -> (r: String)
        ensures
            r@ == self.listen_address@ + seq![':'] + signed_decimal(self.port as int),
    {
        let mut s = self.listen_address.clone();
        proof {
            reveal_strlit(":");
            reveal_strlit("-");
        }
        s.append(":");
        let magnitude: u64;
        if self.port < 0 {
            s.append("-");
            magnitude = (-(self.port as i128)) as u64;
        } else {
            magnitude = self.port as u64;
        }
        push_decimal(&mut s, magnitude);
        proof {
            assert(s@ =~= self.listen_address@ + seq![':'] + signed_decimal(self.port as int));
        }
        s
    }
}

} // verus!
