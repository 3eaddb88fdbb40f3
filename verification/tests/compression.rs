use trace::compression::CompressionFormat;

#[test]
fn test_compression_format_detection() {
    assert_eq!(CompressionFormat::from_path("file.tar.gz"), CompressionFormat::TarGz);
    assert_eq!(CompressionFormat::from_path("file.tgz"), CompressionFormat::TarGz);
    assert_eq!(CompressionFormat::from_path("file.tar.xz"), CompressionFormat::TarXz);
    assert_eq!(CompressionFormat::from_path("file.tar"), CompressionFormat::Tar);
    assert_eq!(CompressionFormat::from_path("file.zip"), CompressionFormat::Zip);
    assert_eq!(CompressionFormat::from_path("file.7z"), CompressionFormat::SevenZ);
    assert_eq!(CompressionFormat::from_path("file.csv"), CompressionFormat::NotCompressed);
}

#[test]
fn compression_suffix_is_case_insensitive() {
    assert_eq!(CompressionFormat::from_path("LOG.TAR.GZ"), CompressionFormat::TarGz);
    assert_eq!(CompressionFormat::from_path("dir/a.TXZ"), CompressionFormat::TarXz);
    assert_eq!(CompressionFormat::from_path("a.tar.bz2"), CompressionFormat::NotCompressed);
}
