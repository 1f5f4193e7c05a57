use comprez::comprezable::Comprezable;
use comprez::error::{CompressError, DecompressError};
use comprez::Compressed;
use rand::{thread_rng, Rng};

#[derive(Debug, PartialEq, PartialOrd, Clone)]
struct FatherStruct {
    num1: i32,
    num2: i64,
    num3: u8,
    num4: u16,
    num5: SonStruct,
}

impl FatherStruct {
    pub fn new(num1: i32, num2: i64, num3: u8, num4: u16, num5: SonStruct) -> Self {
        FatherStruct { num1, num2, num3, num4, num5 }
    }

    fn compress(self) -> Result<Compressed, CompressError> {
        let mut all = Compressed::new();
        all = all.combine(self.num1.compress_to_binaries(Some(10000))?);
        all = all.combine(self.num2.compress_to_binaries(Some(10000))?);
        all = all.combine(u16::from(self.num3).compress_to_binaries(Some(100))?);
        all = all.combine(self.num4.compress_to_binaries(Some(1000))?);
        all = all.combine(self.num5.compress()?);
        Ok(all)
    }

    fn decompress(compressed: Compressed) -> Result<Self, DecompressError> {
        let mut binaries = compressed.to_binaries();
        let num1 = i32::max_binaries(Some(10000)).decompress::<i32>(&mut binaries)?;
        let num2 = i64::max_binaries(Some(10000)).decompress::<i64>(&mut binaries)?;
        let num3 = u16::max_binaries(Some(100)).decompress::<u16>(&mut binaries)?;
        let num4 = u16::max_binaries(Some(1000)).decompress::<u16>(&mut binaries)?;
        let num5 = SonStruct::decompress_from_binaries(&mut binaries)?;
        Ok(FatherStruct { num1, num2, num3: num3 as u8, num4, num5 })
    }
}

#[derive(Debug, PartialEq, PartialOrd, Clone)]
struct SonStruct {
    num6: i128,
    num7: i8,
    num8: GrandSonStruct,
}

impl SonStruct {
    pub fn new(num6: i128, num7: i8, num8: GrandSonStruct) -> Self {
        SonStruct { num6, num7, num8 }
    }

    fn compress(self) -> Result<Compressed, CompressError> {
        let mut all = Compressed::new();
        all = all.combine(self.num6.compress_to_binaries(Some(10000))?);
        all = all.combine(self.num7.compress_to_binaries(Some(100))?);
        all = all.combine(self.num8.compress()?);
        Ok(all)
    }

    fn decompress_from_binaries(binaries: &mut Vec<u8>) -> Result<Self, DecompressError> {
        let num6 = i128::max_binaries(Some(10000)).decompress::<i128>(binaries)?;
        let num7 = i8::max_binaries(Some(100)).decompress::<i8>(binaries)?;
        let num8 = GrandSonStruct::decompress_from_binaries(binaries)?;
        Ok(SonStruct { num6, num7, num8 })
    }
}

#[derive(Debug, PartialEq, PartialOrd, Clone)]
struct GrandSonStruct {
    num9: u128,
}

impl GrandSonStruct {
    pub fn new(num9: u128) -> Self {
        GrandSonStruct { num9 }
    }

    fn compress(self) -> Result<Compressed, CompressError> {
        self.num9.compress_to_binaries(Some(10000))
    }

    fn decompress_from_binaries(binaries: &mut Vec<u8>) -> Result<Self, DecompressError> {
        let num9 = u128::max_binaries(Some(10000)).decompress::<u128>(binaries)?;
        Ok(GrandSonStruct { num9 })
    }
}

#[test]
fn random_int() {
    let mut count = 0;
    for _i in 0..=10000 {
        let mut rng = thread_rng();
        let num1: i32 = rng.gen_range(-9999..=9999);
        let num2: i64 = rng.gen_range(-9999..=9999);
        let num3: u8 = rng.gen_range(0..=99);
        let num4: u16 = rng.gen_range(0..=999);
        let num6: i128 = rng.gen_range(-9999..=9999);
        let num7: i8 = rng.gen_range(-99..=99);
        let num9: u128 = rng.gen_range(0..=9999);

        let num8 = GrandSonStruct::new(num9);
        let num5 = SonStruct::new(num6, num7, num8);
        let data = FatherStruct::new(num1, num2, num3, num4, num5);

        let compressed = data.clone().compress().unwrap();
        let decompressed = FatherStruct::decompress(compressed).unwrap();
        assert!(data.eq(&decompressed));
        count += 1;
    }
    println!("random int done: {} test done", count);
}

#[derive(Debug, PartialEq, PartialOrd, Clone)]
struct RandomVec {
    data: Vec<u8>,
}

impl RandomVec {
    fn compress(self) -> Result<Compressed, CompressError> {
        self.data.compress_to_binaries(None)
    }

    fn decompress(compressed: Compressed) -> Result<Self, DecompressError> {
        let mut binaries = compressed.to_binaries();
        let data = <Vec<u8>>::max_binaries(None).decompress::<Vec<u8>>(&mut binaries)?;
        Ok(RandomVec { data })
    }
}

#[test]
fn random_vec() {
    let mut rng = thread_rng();
    let mut count = 1;
    for _i in 0..=100 {
        let random_vec = (0..=10000)
            .map(|_| {
                let byte: u8 = rng.gen_range(0..=255);
                byte
            })
            .collect::<Vec<u8>>();

        let data = RandomVec { data: random_vec };

        let compressed = data.clone().compress().unwrap();
        let decompressed = RandomVec::decompress(compressed).unwrap();

        assert_eq!(data, decompressed);
        count += 1;
        if count % 100 == 0 {
            println!("{} random vec test done", count);
        }
    }

    println!("random vec done: {} tests done", count);
}

#[test]
fn all_random() {}

#[derive(Debug)]
struct MyStruct {
    num1: u32,
    num2: u64,
    num3: Idk,
    num4: Vec<u8>,
}

impl MyStruct {
    fn compress(self) -> Result<Compressed, CompressError> {
        let mut all = Compressed::new();
        all = all.combine(self.num1.compress_to_binaries(Some(1000))?);
        all = all.combine(self.num2.compress_to_binaries(Some(10000))?);
        all = all.combine(self.num3.compress()?);
        all = all.combine(self.num4.compress_to_binaries(None)?);
        Ok(all)
    }

    fn decompress(compressed: Compressed) -> Result<Self, DecompressError> {
        let mut binaries = compressed.to_binaries();
        let num1 = u32::max_binaries(Some(1000)).decompress::<u32>(&mut binaries)?;
        let num2 = u64::max_binaries(Some(10000)).decompress::<u64>(&mut binaries)?;
        let num3 = Idk::decompress_from_binaries(&mut binaries)?;
        let num4 = <Vec<u8>>::max_binaries(None).decompress::<Vec<u8>>(&mut binaries)?;
        Ok(MyStruct { num1, num2, num3, num4 })
    }
}

#[derive(Debug)]
struct Idk {
    num1: i64,
}

impl Idk {
    fn compress(self) -> Result<Compressed, CompressError> {
        self.num1.compress_to_binaries(Some(500))
    }

    fn decompress_from_binaries(binaries: &mut Vec<u8>) -> Result<Self, DecompressError> {
        let num1 = i64::max_binaries(Some(500)).decompress::<i64>(binaries)?;
        Ok(Idk { num1 })
    }
}

#[test]
fn playground() {
    let demo = MyStruct {
        num1: 900,
        num2: 1000,
        num3: Idk { num1: -75 },
        num4: vec![],
    };
    let a = demo.compress().unwrap();
    println!("{:?}", a.to_binaries().split_at(24).1);
    println!("{:?}", a.to_binaries().split_at(34).1);
    let decompressed = MyStruct::decompress(a).unwrap();
    println!("{:?}", decompressed);
    assert_eq!(decompressed.num1, 900);
    assert_eq!(decompressed.num2, 1000);
    assert_eq!(decompressed.num3.num1, -75);
    assert_eq!(decompressed.num4, Vec::<u8>::new());
}

#[test]
fn playground1() {
    let demo = Compressed::Binaries(vec![1, 1, 1, 0, 0, 0, 0, 1, 0, 0]);
    let num = u32::decompress(demo).unwrap();
    let demo = Compressed::Binaries(vec![0, 0, 0, 0, 1, 1, 1, 1, 1, 0, 1, 0, 0, 0]);
    let num2 = u64::decompress(demo).unwrap();
    let demo = Compressed::Binaries(vec![0, 0, 0, 1, 0, 0, 1, 0, 1, 1]);
    let num3 = i64::decompress(demo).unwrap();

    println!("{}", num);
    println!("{}", num2);
    println!("{}", num3);
    assert_eq!(num, 900);
    assert_eq!(num2, 1000);
    assert_eq!(num3, -75);
}
