use vernam_otp::pipeline::encrypt;

#[test]
fn output_spans_whole_key() {
    let data = [1u8, 2];
    let key = [3u8, 4, 5];
    let out = encrypt(&data, &key, &[]);
    assert_eq!(out, vec![1 ^ 3, 2 ^ 4, 5]);
}

#[test]
fn password_is_applied_after_data() {
    let data = [0x10u8, 0x20];
    let key = [0x01u8, 0x02, 0x03, 0x04];
    let password = [0xAAu8, 0x55, 0xFF];
    let out = encrypt(&data, &key, &password);
    assert_eq!(
        out,
        vec![
            0x01 ^ 0x10 ^ 0xAA,
            0x02 ^ 0x20 ^ 0x55,
            0x03 ^ 0xFF,
            0x04 ^ 0xAA,
        ]
    );
}

#[test]
fn encrypt_is_self_inverse_without_password() {
    let data: Vec<u8> = (0u8..80).collect();
    let key: Vec<u8> = (100u8..196).collect();
    let cipher = encrypt(&data, &key, &[]);
    assert_eq!(cipher.len(), key.len());
    let plain = encrypt(&cipher[..data.len()], &key, &[]);
    assert_eq!(&plain[..data.len()], &data[..]);
}

#[test]
fn encrypt_is_self_inverse_with_password() {
    let data: Vec<u8> = vec![7, 14, 21, 28, 35];
    let key: Vec<u8> = vec![90, 80, 70, 60, 50, 40, 30];
    let password = b"secret".to_vec();
    let cipher = encrypt(&data, &key, &password);
    assert_eq!(cipher.len(), key.len());
    let plain = encrypt(&cipher[..data.len()], &key, &password);
    assert_eq!(&plain[..data.len()], &data[..]);
}
