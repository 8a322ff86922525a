use vstd::prelude::*;

verus! {

/// Options of the `Debug` decorator: which part of the machine state gets printed.
#[derive(Clone, Copy, Debug, PartialEq, Eq)]
pub enum DebugOptions {
    /// The entire stack of the current context.
    StackAll,
    /// The top n items of the stack of the current context.
    StackTop(u16),
    /// The entire memory.
    MemAll,
    /// Memory in an interval of addresses, both ends included.
    MemInterval(u32, u32),
    /// Locals of the running procedure in an interval of indexes, both ends included; then the
    /// number of locals, and whether all of them are to be printed.
    LocalInterval((u32, u32), u32, bool),
    /// The whole state (stack and memory), with the number of locals.
    All(u32),
}

/// Why a byte sequence does not hold debug options.
#[derive(Clone, Copy, Debug, PartialEq, Eq, Structural)]
pub enum DecodeError {
    /// The bytes ended before the options did.
    UnexpectedEOF,
    /// A byte or a number that no options may hold (an unknown tag, a top count of zero, a
    /// flag byte other than 0 and 1).
    InvalidValue(u32),
}

pub const STACK_ALL: u8 = 0;
pub const STACK_TOP: u8 = 1;
pub const MEM_ALL: u8 = 2;
pub const MEM_INTERVAL: u8 = 3;
pub const LOCAL_INTERVAL: u8 = 4;
pub const ALL: u8 = 5;

/// Little-endian bytes of a `u16`.
pub open spec fn le16(n: u16) -> Seq<u8> {
    seq![(n % 256) as u8, (n / 256) as u8]
}

/// Little-endian bytes of a `u32`.
pub open spec fn le32(n: u32) -> Seq<u8> {
    seq![(n % 256) as u8, ((n / 256) % 256) as u8, ((n / 65536) % 256) as u8, (n / 16777216) as u8]
}

/// The `u16` whose little-endian bytes start at `i`.
pub open spec fn u16_at(s: Seq<u8>, i: int) -> u16 {
    (s[i] + 256 * s[i + 1]) as u16
}

/// The `u32` whose little-endian bytes start at `i`.
pub open spec fn u32_at(s: Seq<u8>, i: int) -> u32 {
    (s[i] + 256 * s[i + 1] + 65536 * s[i + 2] + 16777216 * s[i + 3]) as u32
}

/// The byte form of a flag.
pub open spec fn bool_byte(b: bool) -> u8 {
    if b {
        1
    } else {
        0
    }
}

/// The bytes of the options: a tag byte, then the fields in order, little-endian.
pub open spec fn encoding(o: DebugOptions) -> Seq<u8> {
    match o {
        DebugOptions::StackAll => seq![STACK_ALL],
        DebugOptions::StackTop(n) => seq![STACK_TOP] + le16(n),
        DebugOptions::MemAll => seq![MEM_ALL],
        DebugOptions::MemInterval(n, m) => seq![MEM_INTERVAL] + le32(n) + le32(m),
        DebugOptions::LocalInterval(interval, num_locals, print_all) => seq![LOCAL_INTERVAL]
            + le32(interval.0) + le32(interval.1) + le32(num_locals) + seq![bool_byte(print_all)],
        DebugOptions::All(num_locals) => seq![ALL] + le32(num_locals),
    }
}

/// What the bytes `s` start with: the options and how many bytes they take, or why they hold
/// none.
pub open spec fn decoding(s: Seq<u8>) -> Result<(DebugOptions, nat), DecodeError> {
    if s.len() == 0 {
        Err(DecodeError::UnexpectedEOF)
    } else if s[0] == STACK_ALL {
        Ok((DebugOptions::StackAll, 1))
    } else if s[0] == STACK_TOP {
        if s.len() < 3 {
            Err(DecodeError::UnexpectedEOF)
        } else if u16_at(s, 1) == 0 {
            Err(DecodeError::InvalidValue(0))
        } else {
            Ok((DebugOptions::StackTop(u16_at(s, 1)), 3))
        }
    } else if s[0] == MEM_ALL {
        Ok((DebugOptions::MemAll, 1))
    } else if s[0] == MEM_INTERVAL {
        if s.len() < 9 {
            Err(DecodeError::UnexpectedEOF)
        } else {
            Ok((DebugOptions::MemInterval(u32_at(s, 1), u32_at(s, 5)), 9))
        }
    } else if s[0] == LOCAL_INTERVAL {
        if s.len() < 14 {
            Err(DecodeError::UnexpectedEOF)
        } else if s[13] > 1 {
            Err(DecodeError::InvalidValue(s[13] as u32))
        } else {
            Ok(
                (
                    DebugOptions::LocalInterval(
                        (u32_at(s, 1), u32_at(s, 5)),
                        u32_at(s, 9),
                        s[13] == 1,
                    ),
                    14,
                ),
            )
        }
    } else if s[0] == ALL {
        if s.len() < 5 {
            Err(DecodeError::UnexpectedEOF)
        } else {
            Ok((DebugOptions::All(u32_at(s, 1)), 5))
        }
    } else {
        Err(DecodeError::InvalidValue(s[0] as u32))
    }
}

/// Whether the options are ones that the byte form can carry back: a top count is never zero.
pub open spec fn is_readable(o: DebugOptions) -> bool {
    match o {
        DebugOptions::StackTop(n) => n != 0,
        _ => true,
    }
}

proof fn lemma_le16(n: u16)
    ensures
        (le16(n)[0] + 256 * le16(n)[1]) as u16 == n,
{
}

proof fn lemma_le32(n: u32)
    ensures
        (le32(n)[0] + 256 * le32(n)[1] + 65536 * le32(n)[2] + 16777216 * le32(n)[3]) as u32 == n,
{
    let a = n % 256;
    let b = (n / 256) % 256;
    let c = (n / 65536) % 256;
    let d = n / 16777216;
    assert(n == a + 256 * b + 65536 * c + 16777216 * d) by (nonlinear_arith)
        requires
            a == n % 256,
            b == (n / 256) % 256,
            c == (n / 65536) % 256,
            d == n / 16777216,
    ;
}

/// Options written to bytes read back as the same options, using exactly the bytes written,
/// whatever follows them.
pub proof fn lemma_read_written(o: DebugOptions, rest: Seq<u8>)
    requires
        is_readable(o),
    ensures
        decoding(encoding(o) + rest) == Ok::<(DebugOptions, nat), DecodeError>(
            (o, encoding(o).len()),
        ),
{
    let s = encoding(o) + rest;
    match o {
        DebugOptions::StackTop(n) => {
            lemma_le16(n);
            assert(u16_at(s, 1) == n);
        },
        DebugOptions::MemInterval(n, m) => {
            lemma_le32(n);
            lemma_le32(m);
            assert(u32_at(s, 1) == n);
            assert(u32_at(s, 5) == m);
        },
        DebugOptions::LocalInterval(interval, num_locals, print_all) => {
            lemma_le32(interval.0);
            lemma_le32(interval.1);
            lemma_le32(num_locals);
            assert(u32_at(s, 1) == interval.0);
            assert(u32_at(s, 5) == interval.1);
            assert(u32_at(s, 9) == num_locals);
            assert(s[13] == bool_byte(print_all));
        },
        DebugOptions::All(num_locals) => {
            lemma_le32(num_locals);
            assert(u32_at(s, 1) == num_locals);
        },
        _ => {},
    }
}

fn write_u16(target: &mut Vec<u8>, n: u16)
    ensures
        final(target)@ == old(target)@ + le16(n),
{
    target.push((n % 256) as u8);
    target.push((n / 256) as u8);
    assert(final(target)@ =~= old(target)@ + le16(n));
}

fn write_u32(target: &mut Vec<u8>, n: u32)
    ensures
        final(target)@ == old(target)@ + le32(n),
{
    target.push((n % 256) as u8);
    target.push(((n / 256) % 256) as u8);
    target.push(((n / 65536) % 256) as u8);
    target.push((n / 16777216) as u8);
    assert(final(target)@ =~= old(target)@ + le32(n));
}

/// Appends the bytes of `options` to `target`.
pub fn write_options_into(target: &mut Vec<u8>, options: &DebugOptions)
    ensures
        final(target)@ == old(target)@ + encoding(*options),
{
    match options {
        DebugOptions::StackAll => target.push(STACK_ALL),
        DebugOptions::StackTop(n) => {
            target.push(STACK_TOP);
            write_u16(target, *n);
        },
        DebugOptions::MemAll => target.push(MEM_ALL),
        DebugOptions::MemInterval(n, m) => {
            target.push(MEM_INTERVAL);
            write_u32(target, *n);
            write_u32(target, *m);
        },
        DebugOptions::LocalInterval(interval, num_locals, print_all) => {
            target.push(LOCAL_INTERVAL);
            write_u32(target, interval.0);
            write_u32(target, interval.1);
            write_u32(target, *num_locals);
            target.push(if *print_all { 1u8 } else { 0u8 });
        },
        DebugOptions::All(num_locals) => {
            target.push(ALL);
            write_u32(target, *num_locals);
        },
    }
    assert(final(target)@ =~= old(target)@ + encoding(*options));
}

fn read_u16(source: &[u8], i: usize) -> (r: u16)
    requires
        i + 2 <= source@.len(),
    ensures
        r == u16_at(source@, i as int),
{
    source[i] as u16 + 256 * source[i + 1] as u16
}

fn read_u32(source: &[u8], i: usize) -> (r: u32)
    requires
        i + 4 <= source@.len(),
    ensures
        r == u32_at(source@, i as int),
{
    source[i] as u32 + 256 * source[i + 1] as u32 + 65536 * source[i + 2] as u32 + 16777216
        * source[i + 3] as u32
}

/// Reads options from `source` at `*pos`, and moves `*pos` past them. On an error `*pos` stays
/// where it was.
pub fn read_options_from(source: &[u8], pos: &mut usize) -> (r: Result<DebugOptions, DecodeError>)
    requires
        *old(pos) <= source@.len(),
    ensures
        ({
            let d = decoding(source@.subrange(*old(pos) as int, source@.len() as int));
            &&& r is Ok <==> d is Ok
            &&& d is Ok ==> r == Ok::<DebugOptions, DecodeError>(d->Ok_0.0) && *final(pos) == *old(
                pos,
            ) + d->Ok_0.1
            &&& d is Err ==> r == Err::<DebugOptions, DecodeError>(d->Err_0) && *final(pos)
                == *old(pos)
        }),
{
    let ghost s = source@.subrange(*pos as int, source@.len() as int);
    let p = *pos;
    let left = source.len() - p;
    if left == 0 {
        return Err(DecodeError::UnexpectedEOF);
    }
    let tag = source[p];
    assert(s[0] == tag);
    if tag == STACK_ALL {
        *pos = p + 1;
        Ok(DebugOptions::StackAll)
    } else if tag == STACK_TOP {
        if left < 3 {
            return Err(DecodeError::UnexpectedEOF);
        }
        let n = read_u16(source, p + 1);
        assert(u16_at(s, 1) == n);
        if n == 0 {
            return Err(DecodeError::InvalidValue(0));
        }
        *pos = p + 3;
        Ok(DebugOptions::StackTop(n))
    } else if tag == MEM_ALL {
        *pos = p + 1;
        Ok(DebugOptions::MemAll)
    } else if tag == MEM_INTERVAL {
        if left < 9 {
            return Err(DecodeError::UnexpectedEOF);
        }
        let n = read_u32(source, p + 1);
        let m = read_u32(source, p + 5);
        assert(u32_at(s, 1) == n && u32_at(s, 5) == m);
        *pos = p + 9;
        Ok(DebugOptions::MemInterval(n, m))
    } else if tag == LOCAL_INTERVAL {
        if left < 14 {
            return Err(DecodeError::UnexpectedEOF);
        }
        let n = read_u32(source, p + 1);
        let m = read_u32(source, p + 5);
        let num_locals = read_u32(source, p + 9);
        let flag = source[p + 13];
        assert(u32_at(s, 1) == n && u32_at(s, 5) == m && u32_at(s, 9) == num_locals);
        assert(s[13] == flag);
        if flag > 1 {
            return Err(DecodeError::InvalidValue(flag as u32));
        }
        *pos = p + 14;
        Ok(DebugOptions::LocalInterval((n, m), num_locals, flag == 1))
    } else if tag == ALL {
        if left < 5 {
            return Err(DecodeError::UnexpectedEOF);
        }
        let num_locals = read_u32(source, p + 1);
        assert(u32_at(s, 1) == num_locals);
        *pos = p + 5;
        Ok(DebugOptions::All(num_locals))
    } else {
        Err(DecodeError::InvalidValue(tag as u32))
    }
}

} // verus!
