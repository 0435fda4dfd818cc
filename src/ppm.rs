//! Plain-text PPM ("P3") encoding of an 8-bit RGB pixel buffer.
use vstd::prelude::*;
use vstd::string::StringExecFns;

verus! {

/// The character of a decimal digit.
pub open spec fn digit_char(d: nat) -> char
    recommends
        d < 10,
{
    seq!['0', '1', '2', '3', '4', '5', '6', '7', '8', '9'][d as int]
}

/// The decimal numeral of `n`, without leading zeros.
pub open spec fn decimal(n: nat) -> Seq<char>
    decreases n,
{
    if n < 10 {
        seq![digit_char(n)]
    } else {
        decimal(n / 10).push(digit_char(n % 10))
    }
}

/// The line of pixel `i`: its three channel values, separated by spaces.
pub open spec fn pixel_line(pix: Seq<u8>, i: int) -> Seq<char> {
    decimal(pix[3 * i] as nat) + seq![' '] + decimal(pix[3 * i + 1] as nat) + seq![' ']
        + decimal(pix[3 * i + 2] as nat) + seq!['\n']
}

/// The lines of the first `n` pixels.
pub open spec fn pixel_lines(pix: Seq<u8>, n: nat) -> Seq<char>
    decreases n,
{
    if n == 0 {
        Seq::empty()
    } else {
        pixel_lines(pix, (n - 1) as nat) + pixel_line(pix, n - 1)
    }
}

/// The header: magic number, dimensions and the largest channel value.
pub open spec fn ppm_header(width: nat, height: nat) -> Seq<char> {
    seq!['P', '3', '\n'] + decimal(width) + seq![' '] + decimal(height) + seq![
        '\n',
        '2',
        '5',
        '5',
        '\n',
    ]
}

/// The whole text of the image: the header, then one line per pixel in row-major order.
pub open spec fn ppm_text(width: nat, height: nat, pix: Seq<u8>) -> Seq<char> {
    ppm_header(width, height) + pixel_lines(pix, width * height)
}

fn digit_str(d: usize) -> (r: &'static str)
    requires
        d < 10,
    ensures
        r@ == seq![digit_char(d as nat)],
{
    proof {
        reveal_strlit("0");
        reveal_strlit("1");
        reveal_strlit("2");
        reveal_strlit("3");
        reveal_strlit("4");
        reveal_strlit("5");
        reveal_strlit("6");
        reveal_strlit("7");
        reveal_strlit("8");
        reveal_strlit("9");
    }
    match d {
        0 => "0",
        1 => "1",
        2 => "2",
        3 => "3",
        4 => "4",
        5 => "5",
        6 => "6",
        7 => "7",
        8 => "8",
        _ => "9",
    }
}

fn append_decimal(s: &mut String, n: usize)
    ensures
        final(s)@ == old(s)@ + decimal(n as nat),
    decreases n,
{
    if n >= 10 {
        append_decimal(s, n / 10);
    }
    s.append(digit_str(n % 10));
    proof {
        if n >= 10 {
            assert(decimal(n as nat) == decimal((n / 10) as nat).push(digit_char((n % 10) as nat)));
        }
    }
    assert(final(s)@ =~= old(s)@ + decimal(n as nat));
}

/// An RGB image with one byte per channel.
pub struct Ppm {
    width: usize,
    height: usize,
    pix: Vec<u8>,
}

impl Ppm {
    pub closed spec fn spec_width(&self) -> nat {
        self.width as nat
    }

    pub closed spec fn spec_height(&self) -> nat {
        self.height as nat
    }

    pub closed spec fn spec_pix(&self) -> Seq<u8> {
        self.pix@
    }

    /// An image of `width` x `height` pixels whose channels `pix` holds row by row.
    pub fn new(width: usize, height: usize, pix: Vec<u8>) -> (r: Ppm)
        ensures
            r.spec_width() == width,
            r.spec_height() == height,
            r.spec_pix() == pix@,
    {
        Ppm { width, height, pix }
    }

    /// The PPM text of the image.
    pub fn to_string(&self) -> (r: String)
        requires
            self.spec_pix().len() == self.spec_width() * self.spec_height() * 3,
        ensures
            r@ == ppm_text(self.spec_width(), self.spec_height(), self.spec_pix()),
    {
        let mut s = String::new();
        proof {
            reveal_strlit("P3\n");
            reveal_strlit(" ");
            reveal_strlit("\n255\n");
            reveal_strlit("\n");
        }
        s.append("P3\n");
        append_decimal(&mut s, self.width);
        s.append(" ");
        append_decimal(&mut s, self.height);
        s.append("\n255\n");
        assert(s@ =~= ppm_header(self.width as nat, self.height as nat));
        let len: usize = self.pix.len();
        let n: usize = len / 3;
        assert(n == self.width * self.height) by (nonlinear_arith)
            requires
                self.pix@.len() == self.width * self.height * 3,
                n == self.pix@.len() / 3,
        ;
        let mut i: usize = 0;
        while i < n
            invariant
                n == self.width * self.height,
                self.pix@.len() == n * 3,
                len == self.pix@.len(),
                i <= n,
                s@ == ppm_header(self.width as nat, self.height as nat) + pixel_lines(
                    self.pix@,
                    i as nat,
                ),
            decreases n - i,
        {
            let ghost before = s@;
            assert(3 * i + 2 < len) by (nonlinear_arith)
                requires
                    i < n,
                    len == n * 3,
            ;
            let base: usize = 3 * i;
            append_decimal(&mut s, self.pix[base] as usize);
            s.append(" ");
            append_decimal(&mut s, self.pix[base + 1] as usize);
            s.append(" ");
            append_decimal(&mut s, self.pix[base + 2] as usize);
            s.append("\n");
            proof {
                reveal_strlit(" ");
                reveal_strlit("\n");
            }
            assert(s@ =~= before + pixel_line(self.pix@, i as int));
            i = i + 1;
            assert(s@ =~= ppm_header(self.width as nat, self.height as nat) + pixel_lines(
                self.pix@,
                i as nat,
            ));
        }
        s
    }

    /// The PPM text of a `width` x `height` image whose channels `pix` holds row by row.
    pub fn write(width: usize, height: usize, pix: Vec<u8>) -> (r: String)
        requires
            pix@.len() == width * height * 3,
        ensures
            r@ == ppm_text(width as nat, height as nat, pix@),
    {
        Ppm::new(width, height, pix).to_string()
    }
}

} // verus!
