use actionkv::file::File;

#[test]
fn read_requires_an_open_file() {
    let f = File::new("notes.txt", vec![1, 2, 3]);
    let mut buffer: Vec<u8> = Vec::new();
    let r = f.read(&mut buffer);
    assert_eq!(r, Err(String::from("File must be open for reading")));
    assert_eq!(buffer, Vec::<u8>::new());
}

#[test]
fn open_read_close() {
    // Opening and closing may be refused at random; retry with a fresh
    // file until a whole pass succeeds.
    for _ in 0..10_000 {
        let f = File::new("notes.txt", vec![10, 20, 30]);
        assert_eq!(f.name, "notes.txt");
        let f = match f.open() {
            Ok(f) => f,
            Err(msg) => {
                assert_eq!(msg, "Permission denied");
                continue;
            },
        };
        let mut buffer: Vec<u8> = vec![9];
        let n = f.read(&mut buffer).unwrap();
        assert_eq!(n, 3);
        assert_eq!(buffer, vec![9, 10, 20, 30]);
        match f.close() {
            Ok(f) => {
                let mut again: Vec<u8> = Vec::new();
                assert!(f.read(&mut again).is_err());
                return;
            },
            Err(msg) => {
                assert_eq!(msg, "Permission denied");
                continue;
            },
        }
    }
    panic!("open or close never succeeded in ten thousand tries");
}
